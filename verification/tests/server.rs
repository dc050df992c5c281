use blog_server::gate::{memory_step, Gate};
use blog_server::http::{
    admin_route, api_route, auth_outcome, classify, classify_lowered, content_type, content_type_for_ext, cookie_value,
    ct_eq, external_admit, is_authorized, local_route, logs_paging, parse_i64, parse_u64, parse_usize, query_param,
    read_route, sanitize_relative_path, session_cookie_name, session_tier, set_cookie_value, AdminRoute, ApiRoute,
    AuthOutcome, ExternalOutcome, LocalRoute, ReadRoute, ADMIN_TTL_SECS, PRIV_TTL_SECS,
};
use blog_server::sha256::sha256_hex;

#[test]
fn classify_by_agent_then_status() {
    assert_eq!(classify("Googlebot/2.1", 200), "crawler");
    assert_eq!(classify("Mozilla SCANNER", 404), "crawler");
    assert_eq!(classify("Some-Crawler", 503), "crawler");
    assert_eq!(classify("Mozilla/5.0", 404), "scan");
    assert_eq!(classify("Mozilla/5.0", 503), "blocked");
    assert_eq!(classify("Mozilla/5.0", 401), "bruteforce");
    assert_eq!(classify("Mozilla/5.0", 200), "normal");
    assert_eq!(classify("", 500), "normal");
}

#[test]
fn classify_lowered_is_case_sensitive() {
    assert_eq!(classify_lowered("Spider", 200), "normal");
    assert_eq!(classify_lowered("spider", 200), "crawler");
    assert_eq!(classify("Spider", 200), "crawler");
}

#[test]
fn ct_eq_compares_bytes() {
    assert!(ct_eq(b"abc", b"abc"));
    assert!(!ct_eq(b"abc", b"abd"));
    assert!(!ct_eq(b"ab", b"abc"));
    assert!(ct_eq(b"", b""));
}

#[test]
fn relative_path_strips_leading_slashes() {
    assert_eq!(sanitize_relative_path("/index.html"), Some("index.html".to_string()));
    assert_eq!(sanitize_relative_path("//a/b.txt"), Some("a/b.txt".to_string()));
    assert_eq!(sanitize_relative_path("/"), Some(String::new()));
    assert_eq!(sanitize_relative_path("/caf%C3%A9"), Some("café".to_string()));
    assert_eq!(sanitize_relative_path("/..."), Some("...".to_string()));
    assert_eq!(sanitize_relative_path("/a..b/"), Some("a..b/".to_string()));
}

#[test]
fn relative_path_refuses_escapes() {
    assert_eq!(sanitize_relative_path("/a/../b"), None);
    assert_eq!(sanitize_relative_path("/..%2Fetc"), None);
    assert_eq!(sanitize_relative_path("/a/.."), None);
    assert_eq!(sanitize_relative_path("/a%00b"), None);
    assert_eq!(sanitize_relative_path("/a\\b"), None);
    assert_eq!(sanitize_relative_path("/%zz"), None);
    assert_eq!(sanitize_relative_path("/%FF"), None);
    assert_eq!(sanitize_relative_path("/ab%4"), None);
}

#[test]
fn law_relative_path_confined_on_samples() {
    for raw in ["/x/y", "//..//z", "/%2e%2e/a", "/ok/./file", "/a%5Cb"] {
        if let Some(p) = sanitize_relative_path(raw) {
            assert!(!p.starts_with('/'));
            assert!(!p.split('/').any(|s| s == ".."));
            assert!(!p.contains('\\') && !p.contains('\0'));
        }
    }
    assert_eq!(sanitize_relative_path("/%2e%2e/a"), None);
    assert_eq!(sanitize_relative_path("/ok/./file"), Some("ok/./file".to_string()));
}

#[test]
fn content_types_by_extension() {
    assert_eq!(content_type("a/b/Index.HTML"), "text/html; charset=utf-8");
    assert_eq!(content_type("style.css"), "text/css; charset=utf-8");
    assert_eq!(content_type("app.mjs"), "application/javascript; charset=utf-8");
    assert_eq!(content_type("pic.JPeG"), "image/jpeg");
    assert_eq!(content_type("x.tar.gz"), "application/octet-stream");
    assert_eq!(content_type("noext"), "application/octet-stream");
    assert_eq!(content_type(".hidden"), "application/octet-stream");
    assert_eq!(content_type("notes.md"), "text/plain; charset=utf-8");
    assert_eq!(content_type_for_ext("Woff2"), "font/woff2");
    assert_eq!(content_type_for_ext(""), "application/octet-stream");
    assert_eq!(content_type("dir.d/.bashrc"), "application/octet-stream");
    assert_eq!(content_type(".x.css"), "text/css; charset=utf-8");
    assert_eq!(content_type("a/b."), "application/octet-stream");
}

#[test]
fn query_param_first_match_decoded() {
    assert_eq!(query_param(Some("a=1&b=hello%20world"), "b"), Some("hello world".to_string()));
    assert_eq!(query_param(Some("a=1&a=2"), "a"), Some("1".to_string()));
    assert_eq!(query_param(Some("k==v"), "k"), Some("=v".to_string()));
    assert_eq!(query_param(Some("flag&a=x"), "a"), Some("x".to_string()));
    assert_eq!(query_param(Some("a=%zz&a=2"), "a"), None);
    assert_eq!(query_param(Some("a=1"), "b"), None);
    assert_eq!(query_param(None, "a"), None);
    assert_eq!(query_param(Some("page="), "page"), Some(String::new()));
}

#[test]
fn cookie_value_last_wins_and_trims() {
    assert_eq!(cookie_value(Some("a=1; blog_admin = tok ; b=2"), "blog_admin"), Some("tok".to_string()));
    assert_eq!(cookie_value(Some("x=1; x=2"), "x"), Some("2".to_string()));
    assert_eq!(cookie_value(Some("junk; y=3"), "junk"), None);
    assert_eq!(cookie_value(Some("y=3"), "z"), None);
    assert_eq!(cookie_value(None, "y"), None);
    assert_eq!(cookie_value(Some("t=a=b"), "t"), Some("a=b".to_string()));
}

#[test]
fn basic_auth_checks_user_and_hash() {
    let hash_abc = sha256_hex(b"abc");
    assert_eq!(hash_abc, "ba7816bf8f01cfea414140de5dae2223b00361a396177a9cb410ff61f20015ad");
    assert!(is_authorized(Some("Basic YWRtaW46YWJj"), "admin", &hash_abc));
    assert!(!is_authorized(Some("Basic YWRtaW46YWJj"), "root", &hash_abc));
    assert!(!is_authorized(Some("Basic YWRtaW46YWJj"), "admin", "00"));
    assert!(!is_authorized(None, "admin", &hash_abc));
    assert!(!is_authorized(Some("Bearer YWRtaW46YWJj"), "admin", &hash_abc));
    assert!(!is_authorized(Some("Basic !!!!"), "admin", &hash_abc));
    assert!(!is_authorized(Some("Basic YWRtaW4="), "admin", &hash_abc));
}

#[test]
fn basic_auth_splits_at_first_colon() {
    let hash = sha256_hex(b"a:b");
    assert!(is_authorized(Some("Basic YWRtaW46YTpi"), "admin", &hash));
}

#[test]
fn parse_integers_like_std() {
    assert_eq!(parse_i64("42"), Some(42));
    assert_eq!(parse_i64("-7"), Some(-7));
    assert_eq!(parse_i64("+5"), Some(5));
    assert_eq!(parse_i64(""), None);
    assert_eq!(parse_i64("-"), None);
    assert_eq!(parse_i64("1a"), None);
    assert_eq!(parse_i64(" 1"), None);
    assert_eq!(parse_i64("9223372036854775807"), Some(i64::MAX));
    assert_eq!(parse_i64("9223372036854775808"), None);
    assert_eq!(parse_i64("-9223372036854775808"), Some(i64::MIN));
    assert_eq!(parse_i64("-9223372036854775809"), None);
    assert_eq!(parse_usize("+3"), Some(3));
    assert_eq!(parse_usize("-3"), None);
    assert_eq!(parse_u64("18446744073709551615"), Some(u64::MAX));
    assert_eq!(parse_u64("18446744073709551616"), None);
    assert_eq!(parse_u64("007"), Some(7));
}

#[test]
fn logs_paging_defaults_and_clamps() {
    assert_eq!(logs_paging(None, None), (1, 20));
    assert_eq!(logs_paging(Some("3"), Some("500")), (3, 200));
    assert_eq!(logs_paging(Some("0"), Some("0")), (1, 1));
    assert_eq!(logs_paging(Some("x"), Some("-5")), (1, 1));
    assert_eq!(logs_paging(Some("-2"), Some("50")), (1, 50));
    assert_eq!(logs_paging(Some("7"), Some("oops")), (7, 20));
}

#[test]
fn external_only_get_and_head_within_limit() {
    let mut g = Gate::new(1);
    assert!(matches!(external_admit("POST", &mut g), ExternalOutcome::NotFound));
    assert_eq!(g.snapshot(), (0, 1));
    assert!(matches!(external_admit("GET", &mut g), ExternalOutcome::Serve));
    assert!(matches!(external_admit("HEAD", &mut g), ExternalOutcome::Unavailable));
    assert_eq!(g.snapshot(), (1, 1));
    g.release();
    assert!(matches!(external_admit("HEAD", &mut g), ExternalOutcome::Serve));
}

#[test]
fn gate_acquire_release_round_trip() {
    let mut g = Gate::new(0);
    assert_eq!(g.snapshot(), (0, 1));
    g.set_limit(2);
    assert!(g.try_acquire());
    assert!(g.try_acquire());
    assert!(!g.try_acquire());
    assert_eq!(g.snapshot(), (2, 2));
    g.release();
    assert_eq!(g.snapshot(), (1, 2));
    g.set_limit(1);
    assert!(!g.try_acquire());
    assert_eq!(g.snapshot(), (1, 1));
}

#[test]
fn memory_hysteresis_samples() {
    assert_eq!(memory_step(Some(2_000_000), false, 8), (true, 4));
    assert_eq!(memory_step(Some(600_000), true, 8), (true, 4));
    assert_eq!(memory_step(Some(600_000), false, 8), (false, 8));
    assert_eq!(memory_step(Some(100_000), true, 8), (false, 8));
    assert_eq!(memory_step(None, true, 1), (true, 1));
    assert_eq!(memory_step(Some(2_000_000), false, 1), (true, 1));
    assert_eq!(memory_step(Some(0), false, 0), (false, 1));
    assert_eq!(memory_step(Some(1_048_576), false, 8), (false, 8));
    assert_eq!(memory_step(Some(1_048_577), false, 8), (true, 4));
    assert_eq!(memory_step(Some(524_288), true, 8), (true, 4));
    assert_eq!(memory_step(Some(524_287), true, 8), (false, 8));
}

#[test]
fn local_routes() {
    assert!(matches!(local_route(false, "GET", "/"), LocalRoute::Forbidden));
    assert!(matches!(local_route(true, "GET", "/"), LocalRoute::Dashboard));
    assert!(matches!(local_route(true, "HEAD", "/x"), LocalRoute::Read));
    assert!(matches!(local_route(true, "POST", "/x"), LocalRoute::NotFound));
    assert!(matches!(
        local_route(true, "POST", "/api/posts"),
        LocalRoute::Api { privileged: false, admin: false }
    ));
    assert!(matches!(
        local_route(true, "POST", "/api/admin/exec"),
        LocalRoute::Api { privileged: true, admin: true }
    ));
    assert!(matches!(
        local_route(true, "GET", "/api/admin/file"),
        LocalRoute::Api { privileged: true, admin: true }
    ));
    assert!(matches!(
        local_route(true, "GET", "/api/admin/logs"),
        LocalRoute::Api { privileged: false, admin: true }
    ));
}

#[test]
fn read_routes() {
    assert!(matches!(read_route("/posts.json"), ReadRoute::PostsJson));
    match read_route("/post/hello-world") {
        ReadRoute::Post(slug) => assert_eq!(slug, "hello-world"),
        _ => panic!("expected a post route"),
    }
    assert!(matches!(read_route("/index.html"), ReadRoute::Static));
    assert!(matches!(read_route("/post"), ReadRoute::Static));
}

#[test]
fn api_routes() {
    assert!(matches!(api_route("GET", "/api/posts"), ApiRoute::ListPosts));
    assert!(matches!(api_route("POST", "/api/posts"), ApiRoute::CreatePost));
    assert!(matches!(api_route("DELETE", "/api/posts"), ApiRoute::NotFound));
    assert!(matches!(api_route("PUT", "/api/posts/12"), ApiRoute::UpdatePost(12)));
    assert!(matches!(api_route("DELETE", "/api/posts/abc"), ApiRoute::DeletePost(0)));
    assert!(matches!(api_route("GET", "/api/posts/1"), ApiRoute::NotFound));
    assert!(matches!(api_route("POST", "/api/search"), ApiRoute::Search));
    assert!(matches!(api_route("GET", "/api/status"), ApiRoute::Status));
    assert!(matches!(api_route("GET", "/api/other"), ApiRoute::NotFound));
}

#[test]
fn admin_routes() {
    assert!(matches!(admin_route("/api/admin/logs"), AdminRoute::Logs));
    assert!(matches!(admin_route("/api/admin/stats"), AdminRoute::Stats));
    assert!(matches!(admin_route("/api/admin/system"), AdminRoute::System));
    assert!(matches!(admin_route("/api/admin/exec"), AdminRoute::Exec));
    assert!(matches!(admin_route("/api/admin/file"), AdminRoute::File));
    assert!(matches!(admin_route("/api/admin/"), AdminRoute::NotFound));
}

#[test]
fn auth_outcomes_and_cookies() {
    assert!(matches!(auth_outcome(true, false, true), AuthOutcome::Granted));
    assert!(matches!(auth_outcome(false, false, false), AuthOutcome::Denied));
    assert!(matches!(auth_outcome(false, true, true), AuthOutcome::Issue { privileged: true }));
    assert!(matches!(auth_outcome(false, true, false), AuthOutcome::Issue { privileged: false }));
    assert_eq!(session_cookie_name(true), "blog_priv");
    assert_eq!(session_cookie_name(false), "blog_admin");
    assert_eq!(session_tier(true), "priv");
    assert_eq!(session_tier(false), "admin");
    assert_eq!(ADMIN_TTL_SECS, 7 * 24 * 3600);
    assert_eq!(PRIV_TTL_SECS, 24 * 3600);
    assert_eq!(
        set_cookie_value("blog_admin", "tok", ADMIN_TTL_SECS),
        "blog_admin=tok; Path=/; HttpOnly; Max-Age=604800; SameSite=Strict"
    );
    assert_eq!(set_cookie_value("x", "", -1), "x=; Path=/; HttpOnly; Max-Age=-1; SameSite=Strict");
}

#[test]
fn law_privileged_ops_need_priv_session_on_samples() {
    for (path, privileged) in [
        ("/api/admin/exec", true),
        ("/api/admin/file", true),
        ("/api/admin/logs", false),
        ("/api/posts", false),
        ("/api/admin/exec/", false),
    ] {
        match local_route(true, "POST", path) {
            LocalRoute::Api { privileged: p, .. } => assert_eq!(p, privileged),
            _ => panic!("expected an API route"),
        }
    }
    assert_ne!(session_cookie_name(true), session_cookie_name(false));
    assert_ne!(session_tier(true), session_tier(false));
    assert!(matches!(auth_outcome(true, true, true), AuthOutcome::Granted));
    assert!(matches!(auth_outcome(false, false, true), AuthOutcome::Denied));
}
