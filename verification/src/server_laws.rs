//! What requests to the server bring about, as its clients see it.

use vstd::prelude::*;
use crate::app;
use crate::app::{AppConfig, ConfigUpdateRequest, TokenUpdateRequest};
use crate::server;
use crate::server::{
    authorize, config_message, endpoints, handle_config_page, handle_config_update, handle_logs,
    handle_root, handle_static, handle_tokeninfo_page, handle_update_tokeninfo_post, uptime,
    AuthError, ConfigError, ConfigReply, PageReply, PageReplyView,
};
use crate::text;

verus! {

proof fn lemma_words()
    ensures
        "get"@.len() == 3,
        "update"@.len() == 6,
        "reset"@.len() == 5,
        "text"@.len() == 4,
        "html"@.len() == 4,
        "text"@[0] == 't',
        "html"@[0] == 'h',
        "default"@.len() == 7,
        "/"@.len() == 1,
        "/logs"@.len() == 5,
        "/config"@.len() == 7,
        "/tokeninfo"@.len() == 10,
        "/static/shared-styles.css"@.len() == 25,
        "/static/shared.js"@.len() == 17,
        "shared-styles.css"@.len() == 17,
        "shared.js"@.len() == 9,
        "Bearer "@.len() == 7,
{
    reveal_strlit("get");
    reveal_strlit("update");
    reveal_strlit("reset");
    reveal_strlit("text");
    reveal_strlit("html");
    reveal_strlit("default");
    reveal_strlit("/");
    reveal_strlit("/logs");
    reveal_strlit("/config");
    reveal_strlit("/tokeninfo");
    reveal_strlit("/static/shared-styles.css");
    reveal_strlit("/static/shared.js");
    reveal_strlit("shared-styles.css");
    reveal_strlit("shared.js");
    reveal_strlit("Bearer ");
}

/// What follows `Bearer` in a header field is the token.
pub proof fn lemma_bearer(h: Seq<char>, token: Seq<char>)
    ensures
        server::bearer(Some(h)) == Some(token) <==> h == "Bearer "@ + token,
        server::bearer(Some(h)) is None <==> !(h.len() >= 7 && h.take(7) == "Bearer "@),
{
    lemma_words();
    if text::begins(h, "Bearer "@) {
        assert(h =~= h.subrange(0, 7) + h.skip(7));
        assert(h.take(7) =~= h.subrange(0, 7));
    }
    if h == "Bearer "@ + token {
        assert(h.subrange(0, 7) =~= "Bearer "@);
        assert(h.skip(7) =~= token);
    }
    if h.len() >= 7 && h.take(7) == "Bearer "@ {
        assert(h.subrange(0, 7) =~= h.take(7));
    }
}

/// The header field of a client that knows the token.
pub open spec fn carries(header: Option<&str>, token: Seq<char>) -> bool {
    header matches Some(h) && h@ == "Bearer "@ + token
}

/// Only the header field `Bearer` with the token itself opens the server.
pub proof fn token_opens(header: Option<&str>, auth_token: &str, r: Result<(), AuthError>)
    requires
        call_ensures(authorize, (header, auth_token), r),
    ensures
        r is Ok <==> carries(header, auth_token@),
        r == Err::<(), AuthError>(AuthError::Missing) <==> !(header matches Some(h) && h@.len() >= 7
            && h@.take(7) == "Bearer "@),
{
    if let Some(h) = header {
        lemma_bearer(h@, auth_token@);
    }
}

/// What a client sees of the pages.
pub struct Shown {
    pub root: PageReply,
    pub logs: PageReply,
    pub config: PageReply,
    pub tokeninfo: PageReply,
    pub styles: PageReply,
    pub script: PageReply,
}

/// The replies are those of the server under the configuration.
pub open spec fn shows(config: &AppConfig, shown: Shown) -> bool {
    &&& call_ensures(handle_root, (config,), shown.root)
    &&& call_ensures(handle_logs, (config,), shown.logs)
    &&& call_ensures(handle_config_page, (config,), shown.config)
    &&& call_ensures(handle_tokeninfo_page, (config,), shown.tokeninfo)
    &&& call_ensures(handle_static, (config, "shared-styles.css"), shown.styles)
    &&& call_ensures(handle_static, (config, "shared.js"), shown.script)
}

/// The request was accepted as one with the action.
pub open spec fn accepted(
    config: &mut AppConfig,
    header: Option<&str>,
    request: ConfigUpdateRequest,
    r: Result<ConfigReply, ConfigError>,
    action: Seq<char>,
) -> bool {
    &&& call_ensures(handle_config_update, (config, header, request), r)
    &&& r is Ok
    &&& request.action@ == action
}

/// A page that was updated with the type "text" is served as plain text, with exactly the content
/// of the request; static files keep their own type.
pub proof fn text_is_served_as_text(
    config: &mut AppConfig,
    header: Option<&str>,
    request: ConfigUpdateRequest,
    r: Result<ConfigReply, ConfigError>,
    shown: Shown,
)
    requires
        accepted(config, header, request, r, "update"@),
        text::opt(request.content_type) == Some("text"@),
        shows(final(config), shown),
    ensures
        ({
            let page = PageReplyView::Own("text/plain;charset=utf-8"@, request.content@);
            &&& request.path@ == "/"@ ==> shown.root@ == page && final(config).root_content@ == app::PageView::Text(request.content@)
            &&& request.path@ == "/logs"@ ==> shown.logs@ == page && final(config).logs_content@ == app::PageView::Text(request.content@)
            &&& request.path@ == "/config"@ ==> shown.config@ == page && final(config).config_content@ == app::PageView::Text(request.content@)
            &&& request.path@ == "/tokeninfo"@ ==> shown.tokeninfo@ == page && final(config).tokeninfo_content@ == app::PageView::Text(request.content@)
            &&& request.path@ == "/static/shared-styles.css"@ ==> shown.styles@
                == PageReplyView::Own("text/css;charset=utf-8"@, request.content@)
            &&& request.path@ == "/static/shared.js"@ ==> shown.script@ == PageReplyView::Own(
                "text/javascript;charset=utf-8"@,
                request.content@,
            )
        }),
{
    lemma_words();
    assert(request@.content_type == Some("text"@));
}

/// A page that was updated with the type "html" is served as HTML, with exactly the content of the
/// request; static files keep their own type.
pub proof fn html_is_served_as_html(
    config: &mut AppConfig,
    header: Option<&str>,
    request: ConfigUpdateRequest,
    r: Result<ConfigReply, ConfigError>,
    shown: Shown,
)
    requires
        accepted(config, header, request, r, "update"@),
        text::opt(request.content_type) == Some("html"@),
        shows(final(config), shown),
    ensures
        ({
            let page = PageReplyView::Own("text/html;charset=utf-8"@, request.content@);
            &&& request.path@ == "/"@ ==> shown.root@ == page && final(config).root_content@ == app::PageView::Html(request.content@)
            &&& request.path@ == "/logs"@ ==> shown.logs@ == page && final(config).logs_content@ == app::PageView::Html(request.content@)
            &&& request.path@ == "/config"@ ==> shown.config@ == page && final(config).config_content@ == app::PageView::Html(request.content@)
            &&& request.path@ == "/tokeninfo"@ ==> shown.tokeninfo@ == page && final(config).tokeninfo_content@ == app::PageView::Html(request.content@)
            &&& request.path@ == "/static/shared-styles.css"@ ==> shown.styles@
                == PageReplyView::Own("text/css;charset=utf-8"@, request.content@)
            &&& request.path@ == "/static/shared.js"@ ==> shown.script@ == PageReplyView::Own(
                "text/javascript;charset=utf-8"@,
                request.content@,
            )
        }),
{
    lemma_words();
    assert(request@.content_type == Some("html"@));
}

/// A page that was reset, or updated with the type "default", is the one that comes with the server:
/// the root leads to the state of the server, the others have their own type.
pub proof fn default_is_built_in(
    config: &mut AppConfig,
    header: Option<&str>,
    request: ConfigUpdateRequest,
    r: Result<ConfigReply, ConfigError>,
    shown: Shown,
)
    requires
        accepted(config, header, request, r, "reset"@) || (accepted(
            config,
            header,
            request,
            r,
            "update"@,
        ) && text::opt(request.content_type) == Some("default"@)),
        shows(final(config), shown),
    ensures
        request.path@ == "/"@ ==> shown.root@ == PageReplyView::Redirect("/health"@),
        request.path@ == "/logs"@ ==> shown.logs@ == PageReplyView::BuiltIn(
            "text/html;charset=utf-8"@,
        ),
        request.path@ == "/config"@ ==> shown.config@ == PageReplyView::BuiltIn(
            "text/html;charset=utf-8"@,
        ),
        request.path@ == "/tokeninfo"@ ==> shown.tokeninfo@ == PageReplyView::BuiltIn(
            "text/html;charset=utf-8"@,
        ),
        request.path@ == "/static/shared-styles.css"@ ==> shown.styles@ == PageReplyView::BuiltIn(
            "text/css;charset=utf-8"@,
        ),
        request.path@ == "/static/shared.js"@ ==> shown.script@ == PageReplyView::BuiltIn(
            "text/javascript;charset=utf-8"@,
        ),
{
    lemma_words();
}

/// A request changes no page but the one that it names, and none where it names none, asks only to
/// read, or is refused.
pub proof fn other_pages_stay(
    config: &mut AppConfig,
    header: Option<&str>,
    request: ConfigUpdateRequest,
    r: Result<ConfigReply, ConfigError>,
    before: Shown,
    after: Shown,
)
    requires
        call_ensures(handle_config_update, (config, header, request), r),
        shows(old(config), before),
        shows(final(config), after),
    ensures
        ({
            let none = r is Err || request.action@ == "get"@ || (request.action@ == "update"@
                && request.content_type is None);
            &&& none || request.path@ != "/"@ ==> after.root@ == before.root@
            &&& none || request.path@ != "/logs"@ ==> after.logs@ == before.logs@
            &&& none || request.path@ != "/config"@ ==> after.config@ == before.config@
            &&& none || request.path@ != "/tokeninfo"@ ==> after.tokeninfo@ == before.tokeninfo@
            &&& none || request.path@ != "/static/shared-styles.css"@ ==> after.styles@
                == before.styles@
            &&& none || request.path@ != "/static/shared.js"@ ==> after.script@ == before.script@
        }),
{
    lemma_words();
}

/// Settings take the value that a request gives, return to the default with a reset of them, and
/// stay where the request does not speak of them.
pub proof fn settings_take_the_value(
    config: &mut AppConfig,
    header: Option<&str>,
    request: ConfigUpdateRequest,
    r: Result<ConfigReply, ConfigError>,
)
    requires
        call_ensures(handle_config_update, (config, header, request), r),
    ensures
        r is Ok && request.action@ == "update"@ ==> {
            &&& request.vision_ability matches Some(v) ==> final(config).vision_ability@ == v@
            &&& request.enable_slow_pool matches Some(b) ==> final(config).enable_slow_pool
                == Some(b)
        },
        r is Ok && request.action@ == "reset"@ ==> {
            &&& request.vision_ability is Some ==> final(config).vision_ability@ == "base64"@
            &&& request.enable_slow_pool is Some ==> final(config).enable_slow_pool is None
        },
        r is Err || request.action@ == "get"@ || request.vision_ability is None ==> final(config).vision_ability@ == old(config).vision_ability@,
        r is Err || request.action@ == "get"@ || request.enable_slow_pool is None ==> final(config).enable_slow_pool == old(config).enable_slow_pool,
        final(config).auth_token@ == old(config).auth_token@,
        final(config).token_file@ == old(config).token_file@,
        final(config).token_list_file@ == old(config).token_list_file@,
        final(config).route_prefix@ == old(config).route_prefix@,
        final(config).version@ == old(config).version@,
        final(config).start_time == old(config).start_time,
{
    lemma_words();
}

/// The path names a page.
pub open spec fn is_page(path: Seq<char>) -> bool {
    path == "/"@ || path == "/logs"@ || path == "/config"@ || path == "/tokeninfo"@ || path
        == "/static/shared-styles.css"@ || path == "/static/shared.js"@
}

/// A request is refused exactly where it does not carry the token, asks for something unknown, or
/// names a page that does not exist; each reason has its status.
pub proof fn refusals_have_reasons(
    config: &mut AppConfig,
    header: Option<&str>,
    request: ConfigUpdateRequest,
    r: Result<ConfigReply, ConfigError>,
)
    requires
        call_ensures(handle_config_update, (config, header, request), r),
    ensures
        ({
            let kind = text::opt(request.content_type);
            let known = kind == Some("text"@) || kind == Some("html"@) || kind == Some("default"@);
            let update = request.action@ == "update"@;
            let reset = request.action@ == "reset"@;
            let paged = request.path@.len() > 0;
            &&& !carries(header, old(config).auth_token@) <==> (r matches Err(
                ConfigError::Unauthorized(_),
            ))
            &&& carries(header, old(config).auth_token@) ==> {
                &&& r is Ok <==> request.action@ == "get"@ || (update && (!paged || kind is None || (
                known && is_page(request.path@)))) || (reset && (!paged || is_page(request.path@)))
                &&& update && paged && kind is Some && !known ==> r == Err::<
                    ConfigReply,
                    ConfigError,
                >(ConfigError::ContentType)
                &&& update && paged && known && !is_page(request.path@) ==> (r matches Err(
                    ConfigError::Update(_),
                ))
                &&& reset && paged && !is_page(request.path@) ==> (r matches Err(
                    ConfigError::Reset(_),
                ))
                &&& !update && !reset && request.action@ != "get"@ ==> r == Err::<
                    ConfigReply,
                    ConfigError,
                >(ConfigError::Action)
            }
        }),
{
    lemma_words();
    if let Some(h) = header {
        lemma_bearer(h@, old(config).auth_token@);
    }
    assert(request@.content_type == text::opt(request.content_type));
}

/// A request that asks to read is answered with the configuration, and changes nothing; the others
/// are answered by what they did.
pub proof fn answer_tells_the_action(
    config: &mut AppConfig,
    header: Option<&str>,
    request: ConfigUpdateRequest,
    r: Result<ConfigReply, ConfigError>,
)
    requires
        call_ensures(handle_config_update, (config, header, request), r),
        r is Ok,
    ensures
        request.action@ == "get"@ ==> (r->Ok_0 matches ConfigReply::Current(d)
            && d.root_content@ == old(config).root_content@ && d.logs_content@ == old(config).logs_content@ && d.config_content@ == old(config).config_content@
            && d.tokeninfo_content@ == old(config).tokeninfo_content@ && d.shared_styles_content@
            == old(config).shared_styles_content@ && d.shared_js_content@ == old(config).shared_js_content@ && d.vision_ability@ == old(config).vision_ability@
            && d.enable_slow_pool == old(config).enable_slow_pool),
        request.action@ == "update"@ ==> r == Ok::<ConfigReply, ConfigError>(ConfigReply::Updated),
        request.action@ == "reset"@ ==> r == Ok::<ConfigReply, ConfigError>(ConfigReply::Reset),
{
    lemma_words();
}

/// Without own content every page is the one that comes with the server, and a new configuration
/// has none.
pub proof fn new_server_has_defaults(
    version: String,
    start_time: i64,
    config: AppConfig,
    shown: Shown,
)
    requires
        call_ensures(AppConfig::new, (version, start_time), config),
        shows(&config, shown),
    ensures
        shown.root@ == PageReplyView::Redirect("/health"@),
        shown.logs@ == PageReplyView::BuiltIn("text/html;charset=utf-8"@),
        shown.config@ == PageReplyView::BuiltIn("text/html;charset=utf-8"@),
        shown.tokeninfo@ == PageReplyView::BuiltIn("text/html;charset=utf-8"@),
        shown.styles@ == PageReplyView::BuiltIn("text/css;charset=utf-8"@),
        shown.script@ == PageReplyView::BuiltIn("text/javascript;charset=utf-8"@),
        config.version@ == version@,
        config.start_time == start_time,
        config.vision_ability@ == "base64"@,
        config.enable_slow_pool is None,
        config.token_file@ == ".token"@,
        config.token_list_file@ == ".token-list"@,
        config.auth_token@.len() == 0,
        config.route_prefix@.len() == 0,
{
    lemma_words();
}

/// The settings of the environment are taken over, each to its place; pages, version and start time
/// stay.
pub proof fn environment_is_taken_over(
    config: &mut AppConfig,
    vision_ability: String,
    enable_slow_pool: Option<bool>,
    auth_token: String,
    token_file: String,
    token_list_file: String,
    route_prefix: String,
    before: Shown,
    after: Shown,
)
    requires
        call_ensures(
            AppConfig::init,
            (
                config,
                vision_ability,
                enable_slow_pool,
                auth_token,
                token_file,
                token_list_file,
                route_prefix,
            ),
            (),
        ),
        shows(old(config), before),
        shows(final(config), after),
    ensures
        final(config).vision_ability@ == vision_ability@,
        final(config).enable_slow_pool == enable_slow_pool,
        final(config).auth_token@ == auth_token@,
        final(config).token_file@ == token_file@,
        final(config).token_list_file@ == token_list_file@,
        final(config).route_prefix@ == route_prefix@,
        final(config).version@ == old(config).version@,
        final(config).start_time == old(config).start_time,
        after.root@ == before.root@,
        after.logs@ == before.logs@,
        after.config@ == before.config@,
        after.tokeninfo@ == before.tokeninfo@,
        after.styles@ == before.styles@,
        after.script@ == before.script@,
{
    lemma_words();
}

/// There are two static files.
pub proof fn other_files_are_missing(config: &AppConfig, path: &str, r: PageReply)
    requires
        call_ensures(handle_static, (config, path), r),
    ensures
        r@ == PageReplyView::NotFound <==> path@ != "shared-styles.css"@ && path@ != "shared.js"@,
{
    lemma_words();
}

/// The time of running counts whole seconds: the next one has not passed yet.
pub proof fn uptime_counts_whole_seconds(config: &AppConfig, now: i64, r: i64)
    requires
        call_ensures(uptime, (config, now), r),
        now >= config.start_time,
    ensures
        r * 1_000_000_000 <= now - config.start_time < (r + 1) * 1_000_000_000,
{
}

/// A token update writes the tokens to the token file, and then the list to the list file where
/// there is one; without the token of the server it writes nothing.
pub proof fn token_update_writes_files(
    config: &AppConfig,
    header: Option<&str>,
    request: TokenUpdateRequest,
    r: Result<Vec<(String, String)>, AuthError>,
)
    requires
        call_ensures(handle_update_tokeninfo_post, (config, header, request), r),
    ensures
        r is Ok <==> carries(header, config.auth_token@),
        r matches Ok(writes) ==> {
            &&& writes@.len() == (if request.token_list is Some {
                2nat
            } else {
                1nat
            })
            &&& writes@[0].0@ == config.token_file@ && writes@[0].1@ == request.tokens@
            &&& request.token_list matches Some(list) ==> writes@[1].0@ == config.token_list_file@
                && writes@[1].1@ == list@
        },
{
    if let Some(h) = header {
        lemma_bearer(h@, config.auth_token@);
    }
    if let Ok(writes) = r {
        let v = server::pair_views(writes@);
        assert(v.len() == writes@.len());
        assert(v[0] == (writes@[0].0@, writes@[0].1@));
        if request.token_list is Some {
            assert(v[1] == (writes@[1].0@, writes@[1].1@));
        }
    }
}

/// The state of the server lists the paths of chats and models with the prefix, and the others
/// without it.
pub proof fn prefix_is_for_the_interface(config: &AppConfig, r: Vec<String>, i: int)
    requires
        call_ensures(endpoints, (config,), r),
    ensures
        r@.len() == 10,
        r@[0]@ == config.route_prefix@ + "/v1/chat/completions"@,
        r@[1]@ == config.route_prefix@ + "/v1/models"@,
        2 <= i < 10 ==> r@[i]@.len() > 0 && r@[i]@[0] == '/',
        exists|j: int| 2 <= j < 10 && (#[trigger] r@[j])@ == "/config"@,
        exists|j: int| 2 <= j < 10 && (#[trigger] r@[j])@ == "/logs"@,
        exists|j: int| 2 <= j < 10 && (#[trigger] r@[j])@ == "/checksum"@,
        exists|j: int| 2 <= j < 10 && (#[trigger] r@[j])@ == "/tokeninfo"@,
        exists|j: int| 2 <= j < 10 && (#[trigger] r@[j])@ == "/update-tokeninfo"@,
        exists|j: int| 2 <= j < 10 && (#[trigger] r@[j])@ == "/get-tokeninfo"@,
        exists|j: int| 2 <= j < 10 && (#[trigger] r@[j])@ == "/env-example"@,
        exists|j: int| 2 <= j < 10 && (#[trigger] r@[j])@ == "/static"@,
{
    lemma_words();
    reveal_strlit("/checksum");
    reveal_strlit("/update-tokeninfo");
    reveal_strlit("/get-tokeninfo");
    reveal_strlit("/env-example");
    reveal_strlit("/static");
    reveal_strlit("/tokeninfo");
    reveal_strlit("/logs");
    reveal_strlit("/config");
    let v = text::views(r@);
    assert(v == server::endpoint_list(config@.route_prefix));
    assert(v.len() == 10 && v.len() == r@.len());
    assert forall|j: int| 0 <= j < 10 implies (#[trigger] r@[j])@ == v[j] by {
    }
    assert(r@[2]@ == "/checksum"@);
    assert(r@[3]@ == "/tokeninfo"@);
    assert(r@[4]@ == "/update-tokeninfo"@);
    assert(r@[5]@ == "/get-tokeninfo"@);
    assert(r@[6]@ == "/logs"@);
    assert(r@[7]@ == "/env-example"@);
    assert(r@[8]@ == "/config"@);
    assert(r@[9]@ == "/static"@);
}

/// A client that is not known is told so, one that asks for nonsense is told that, and what the
/// server cannot do is its own failure.
pub proof fn statuses_of_refusals(e: &ConfigError, r: u16)
    requires
        call_ensures(ConfigError::status, (e,), r),
    ensures
        e is Unauthorized ==> r == 401,
        e is ContentType || e is Action ==> r == 400,
        e is Update || e is Reset ==> r == 500,
{
}

/// A refused client is told why, with the reason that the refusal carries.
pub proof fn reasons_are_told(e: &ConfigError, r: String)
    requires
        call_ensures(ConfigError::message, (e,), r),
    ensures
        e matches ConfigError::Update(why) ==> r@ == "更新页面内容失败: "@ + why@,
        e matches ConfigError::Reset(why) ==> r@ == "重置页面内容失败: "@ + why@,
        e == ConfigError::Unauthorized(AuthError::Missing) ==> r@ == "未提供认证令牌"@,
        e == ConfigError::Unauthorized(AuthError::Wrong) ==> r@ == "无效的认证令牌"@,
        e is ContentType ==> r@ == "无效的内容类型"@,
        e is Action ==> r@ == "无效的操作类型"@,
{
}

/// Before its start a server has run for a time below zero, in whole seconds too.
pub proof fn uptime_counts_back(config: &AppConfig, now: i64, r: i64)
    requires
        call_ensures(uptime, (config, now), r),
        now <= config.start_time,
    ensures
        r <= 0,
        (-r) * 1_000_000_000 <= config.start_time - now < (1 - r) * 1_000_000_000,
{
}

/// A client without a token and one with another token are told apart; a page that does not exist is
/// named as the reason.
pub proof fn refusals_are_told_apart(
    config: &mut AppConfig,
    header: Option<&str>,
    request: ConfigUpdateRequest,
    r: Result<ConfigReply, ConfigError>,
    same: &AppConfig,
    update: TokenUpdateRequest,
    s: Result<Vec<(String, String)>, AuthError>,
    auth: Result<(), AuthError>,
    token: &str,
)
    requires
        call_ensures(handle_config_update, (config, header, request), r),
        call_ensures(handle_update_tokeninfo_post, (same, header, update), s),
        call_ensures(authorize, (header, token), auth),
        token@ == old(config).auth_token@,
        token@ == same.auth_token@,
    ensures
        auth matches Err(e) ==> r == Err::<ConfigReply, ConfigError>(ConfigError::Unauthorized(e)),
        auth matches Err(e) ==> (s matches Err(f) && f == e),
        auth is Ok ==> s is Ok && !(r matches Err(ConfigError::Unauthorized(_))),
        r matches Err(ConfigError::Update(why)) ==> why@ == "无效的路径"@,
        r matches Err(ConfigError::Reset(why)) ==> why@ == "无效的路径"@,
{
}

/// The paths that the server answers have their order.
pub proof fn paths_have_their_order(config: &AppConfig, r: Vec<String>)
    requires
        call_ensures(endpoints, (config,), r),
    ensures
        r@.len() == 10,
        r@[2]@ == "/checksum"@ && r@[3]@ == "/tokeninfo"@ && r@[4]@ == "/update-tokeninfo"@,
        r@[5]@ == "/get-tokeninfo"@ && r@[6]@ == "/logs"@ && r@[7]@ == "/env-example"@,
        r@[8]@ == "/config"@ && r@[9]@ == "/static"@,
{
    let v = text::views(r@);
    assert(v == server::endpoint_list(config.route_prefix@));
    assert(v.len() == r@.len());
    assert forall|i: int| 0 <= i < 10 implies #[trigger] v[i] == r@[i]@ by {
    }
    assert(v[2] == r@[2]@ && v[3] == r@[3]@ && v[4] == r@[4]@ && v[5] == r@[5]@);
    assert(v[6] == r@[6]@ && v[7] == r@[7]@ && v[8] == r@[8]@ && v[9] == r@[9]@);
}

/// What was done is told in words.
pub proof fn replies_have_words(reply: &ConfigReply, r: Option<&'static str>)
    requires
        call_ensures(config_message, (reply,), r),
    ensures
        *reply is Updated ==> server::opt_str(r) == Some("配置已更新"@),
        *reply is Reset ==> server::opt_str(r) == Some("配置已重置"@),
        *reply is Current ==> r is None,
{
}

} // verus!
