//! What changing the configuration changes, and what it leaves alone.

use vstd::prelude::*;
use crate::app::{AppConfig, AppState, PageContent};
use crate::server_laws;
use crate::tokens::TokenInfo;

verus! {

/// All settings but the pages are the same.
pub open spec fn same_settings(a: AppConfig, b: AppConfig) -> bool {
    &&& a.auth_token@ == b.auth_token@
    &&& a.token_file@ == b.token_file@
    &&& a.token_list_file@ == b.token_list_file@
    &&& a.route_prefix@ == b.route_prefix@
    &&& a.version@ == b.version@
    &&& a.start_time == b.start_time
}

/// The pages show the same.
pub open spec fn same_page(a: PageContent, b: PageContent) -> bool {
    match (a, b) {
        (PageContent::Default, PageContent::Default) => true,
        (PageContent::Text(s), PageContent::Text(t)) => s@ == t@,
        (PageContent::Html(s), PageContent::Html(t)) => s@ == t@,
        _ => false,
    }
}

/// All pages show the same.
pub open spec fn same_pages(a: AppConfig, b: AppConfig) -> bool {
    &&& same_page(a.root_content, b.root_content)
    &&& same_page(a.logs_content, b.logs_content)
    &&& same_page(a.config_content, b.config_content)
    &&& same_page(a.tokeninfo_content, b.tokeninfo_content)
    &&& same_page(a.shared_styles_content, b.shared_styles_content)
    &&& same_page(a.shared_js_content, b.shared_js_content)
}

/// How images are handled is set and reset by itself.
pub proof fn vision_is_set_by_itself(
    c: &mut AppConfig,
    ability: String,
    d: &mut AppConfig,
)
    requires
        call_ensures(AppConfig::update_vision_ability, (c, ability), ()),
        call_ensures(AppConfig::reset_vision_ability, (d,), ()),
    ensures
        final(c).vision_ability@ == ability@,
        final(c).enable_slow_pool == old(c).enable_slow_pool,
        same_settings(*final(c), *old(c)),
        same_pages(*final(c), *old(c)),
        final(d).vision_ability@ == "base64"@,
        final(d).enable_slow_pool == old(d).enable_slow_pool,
        same_settings(*final(d), *old(d)),
        same_pages(*final(d), *old(d)),
{
    lemma_pages(*final(c), *old(c));
    lemma_pages(*final(d), *old(d));
}

/// Whether the slow pool is used is set and reset by itself.
pub proof fn slow_pool_is_set_by_itself(c: &mut AppConfig, enable: bool, d: &mut AppConfig)
    requires
        call_ensures(AppConfig::update_slow_pool, (c, enable), ()),
        call_ensures(AppConfig::reset_slow_pool, (d,), ()),
    ensures
        final(c).enable_slow_pool == Some(enable),
        final(c).vision_ability@ == old(c).vision_ability@,
        same_settings(*final(c), *old(c)),
        same_pages(*final(c), *old(c)),
        final(d).enable_slow_pool is None,
        final(d).vision_ability@ == old(d).vision_ability@,
        same_settings(*final(d), *old(d)),
        same_pages(*final(d), *old(d)),
{
    lemma_pages(*final(c), *old(c));
    lemma_pages(*final(d), *old(d));
}

proof fn lemma_pages(a: AppConfig, b: AppConfig)
    requires
        a@.pages == b@.pages,
    ensures
        same_pages(a, b),
{
    lemma_page(a.root_content, b.root_content);
    lemma_page(a.logs_content, b.logs_content);
    lemma_page(a.config_content, b.config_content);
    lemma_page(a.tokeninfo_content, b.tokeninfo_content);
    lemma_page(a.shared_styles_content, b.shared_styles_content);
    lemma_page(a.shared_js_content, b.shared_js_content);
}

proof fn lemma_page(a: PageContent, b: PageContent)
    ensures
        a@ == b@ <==> same_page(a, b),
{
}

/// Setting a page sets the one at the path, and no other; a path that names no page is refused, and
/// changes nothing.
pub proof fn pages_are_set_by_themselves(
    c: &mut AppConfig,
    path: &str,
    content: PageContent,
    r: Result<(), &'static str>,
)
    requires
        call_ensures(AppConfig::update_page_content, (c, path, content), r),
    ensures
        final(c).vision_ability@ == old(c).vision_ability@,
        final(c).enable_slow_pool == old(c).enable_slow_pool,
        same_settings(*final(c), *old(c)),
        same_page(
            final(c).root_content,
            if path@ == "/"@ {
                content
            } else {
                old(c).root_content
            },
        ),
        same_page(
            final(c).logs_content,
            if path@ == "/logs"@ {
                content
            } else {
                old(c).logs_content
            },
        ),
        same_page(
            final(c).config_content,
            if path@ == "/config"@ {
                content
            } else {
                old(c).config_content
            },
        ),
        same_page(
            final(c).tokeninfo_content,
            if path@ == "/tokeninfo"@ {
                content
            } else {
                old(c).tokeninfo_content
            },
        ),
        same_page(
            final(c).shared_styles_content,
            if path@ == "/static/shared-styles.css"@ {
                content
            } else {
                old(c).shared_styles_content
            },
        ),
        same_page(
            final(c).shared_js_content,
            if path@ == "/static/shared.js"@ {
                content
            } else {
                old(c).shared_js_content
            },
        ),
        r is Ok <==> server_laws::is_page(path@),
{
    lemma_paths();
    lemma_page(final(c).root_content, old(c).root_content);
    lemma_page(final(c).logs_content, old(c).logs_content);
    lemma_page(final(c).config_content, old(c).config_content);
    lemma_page(final(c).tokeninfo_content, old(c).tokeninfo_content);
    lemma_page(final(c).shared_styles_content, old(c).shared_styles_content);
    lemma_page(final(c).shared_js_content, old(c).shared_js_content);
    lemma_page(final(c).root_content, content);
    lemma_page(final(c).logs_content, content);
    lemma_page(final(c).config_content, content);
    lemma_page(final(c).tokeninfo_content, content);
    lemma_page(final(c).shared_styles_content, content);
    lemma_page(final(c).shared_js_content, content);
}

proof fn lemma_paths()
    ensures
        "/"@ != "/logs"@ && "/"@ != "/config"@ && "/"@ != "/tokeninfo"@,
        "/"@ != "/static/shared-styles.css"@ && "/"@ != "/static/shared.js"@,
        "/logs"@ != "/config"@ && "/logs"@ != "/tokeninfo"@,
        "/logs"@ != "/static/shared-styles.css"@ && "/logs"@ != "/static/shared.js"@,
        "/config"@ != "/tokeninfo"@ && "/config"@ != "/static/shared-styles.css"@,
        "/config"@ != "/static/shared.js"@ && "/tokeninfo"@ != "/static/shared-styles.css"@,
        "/tokeninfo"@ != "/static/shared.js"@,
        "/static/shared-styles.css"@ != "/static/shared.js"@,
{
    reveal_strlit("/");
    reveal_strlit("/logs");
    reveal_strlit("/config");
    reveal_strlit("/tokeninfo");
    reveal_strlit("/static/shared-styles.css");
    reveal_strlit("/static/shared.js");
    assert("/"@.len() == 1 && "/logs"@.len() == 5 && "/config"@.len() == 7);
    assert("/tokeninfo"@.len() == 10 && "/static/shared-styles.css"@.len() == 25);
    assert("/static/shared.js"@.len() == 17);
}

/// Resetting a page is setting it to what comes with the server.
pub proof fn reset_sets_the_default(
    c: &mut AppConfig,
    d: &mut AppConfig,
    path: &str,
    r: Result<(), &'static str>,
    s: Result<(), &'static str>,
)
    requires
        call_ensures(AppConfig::update_page_content, (c, path, PageContent::Default), r),
        call_ensures(AppConfig::reset_page_content, (d, path), s),
        old(c)@ == old(d)@,
    ensures
        r is Ok <==> s is Ok,
        same_pages(*final(c), *final(d)),
        same_settings(*final(c), *final(d)),
        final(c).vision_ability@ == final(d).vision_ability@,
        final(c).enable_slow_pool == final(d).enable_slow_pool,
{
    lemma_pages(*final(c), *final(d));
}

/// Replacing the tokens changes nothing else of the state; a new server has seen no request.
pub proof fn tokens_are_replaced(
    s: &mut AppState,
    tokens: Vec<TokenInfo>,
    fresh: AppState,
)
    requires
        call_ensures(AppState::update_token_infos, (s, tokens), ()),
        call_ensures(AppState::new, (tokens,), fresh),
    ensures
        final(s).token_infos == tokens,
        final(s).total_requests == old(s).total_requests,
        final(s).active_requests == old(s).active_requests,
        final(s).request_logs == old(s).request_logs,
        fresh.token_infos == tokens,
        fresh.total_requests == 0 && fresh.active_requests == 0 && fresh.request_logs@.len() == 0,
{
}

/// A copy of what a page shows is the same.
pub proof fn copies_show_the_same(p: &PageContent, r: PageContent)
    requires
        call_ensures(PageContent::copy, (p,), r),
    ensures
        same_page(r, *p),
{
    lemma_page(r, *p);
}

} // verus!
