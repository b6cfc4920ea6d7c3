use archive_proxy::controller::forwarded_content_type;
use archive_proxy::controller::is_textual;
use archive_proxy::controller::plan_forward_response;
use archive_proxy::controller::route_request;
use archive_proxy::controller::upstream_error_response;
use archive_proxy::controller::RouteDecision;
use archive_proxy::headers::response_headers;
use archive_proxy::method::Method;
use archive_proxy::rewrite::rewrite_body;

fn by(s: &str) -> Vec<u8> {
    s.as_bytes().to_vec()
}

#[test]
fn cached_get_is_served_without_an_upstream_request() {
    assert_eq!(route_request(Method::Get, true), RouteDecision::ServeFromDisk);
    assert_eq!(route_request(Method::Get, false), RouteDecision::Forward);
}

#[test]
fn non_get_methods_never_read_the_cache() {
    assert_eq!(route_request(Method::Post, true), RouteDecision::Forward);
    assert_eq!(route_request(Method::Put, true), RouteDecision::Forward);
}

#[test]
fn non_get_responses_are_not_persisted() {
    let plan = plan_forward_response(&by("/ar/submitunknown_ext"), Method::Post, None);
    assert!(!plan.persist);
    let plan = plan_forward_response(&by("/ar/x.png"), Method::Get, None);
    assert!(plan.persist);
}

#[test]
fn upstream_failure_yields_bare_502() {
    let r = upstream_error_response();
    assert_eq!(r.status, 502);
    assert!(r.body.is_empty());
}

#[test]
fn html_body_rewrites_upstream_links() {
    let body = by("<a href=\"https://api.example.com/x\">");
    let out = rewrite_body(&body, b"api.example.com", b"localhost:3000", None);
    assert_eq!(out, by("<a href=\"http://localhost:3000/x\">"));
}

#[test]
fn css_url_is_rewritten() {
    let body = by("url(https://api.example.com/img/b.png)");
    let out = rewrite_body(&body, b"api.example.com", b"localhost:3000", None);
    assert_eq!(out, by("url(http://localhost:3000/img/b.png)"));
}

#[test]
fn rewriting_twice_changes_nothing() {
    let body = by("a https://api.example.com/x b http://api.example.com/y c api.example.com");
    let once = rewrite_body(&body, b"api.example.com", b"localhost:3000", None);
    let twice = rewrite_body(&once, b"api.example.com", b"localhost:3000", None);
    assert_eq!(once, twice);
}

#[test]
fn plain_host_reference_is_replaced() {
    let body = by("host=api.example.com;");
    let out = rewrite_body(&body, b"api.example.com", b"localhost:3000", None);
    assert_eq!(out, by("host=localhost:3000;"));
}

#[test]
fn prefix_local_swallows_the_scheme() {
    let body = by("src=\"https://api.example.com/j.js\"");
    let pl = by("local-base/");
    let out = rewrite_body(&body, b"api.example.com", b"localhost:3000", Some(&pl));
    assert_eq!(out, by("src=\"local-base//j.js\""));
}

#[test]
fn prefix_local_without_scheme_falls_back_to_rewrite_host() {
    let body = by("host is api.example.com here");
    let pl = by("local-base/");
    let out = rewrite_body(&body, b"api.example.com", b"localhost:3000", Some(&pl));
    assert_eq!(out, by("host is localhost:3000 here"));
}

#[test]
fn body_without_host_is_untouched() {
    let body = by("nothing to see");
    let out = rewrite_body(&body, b"api.example.com", b"localhost:3000", None);
    assert_eq!(out, body);
}

#[test]
fn hsts_is_not_passed_on() {
    let upstream = vec![
        (by("Strict-Transport-Security"), by("max-age=1")),
        (by("X-Custom"), by("kept")),
        (by("Content-Length"), by("12")),
        (by("Expect-CT"), by("enforce")),
    ];
    let out = response_headers(&upstream, 3000);
    assert_eq!(out.len(), 4);
    assert_eq!(out[0].0, by("access-control-allow-origin"));
    assert_eq!(out[0].1, by("localhost:3000"));
    assert_eq!(out[1].0, by("access-control-allow-credentials"));
    assert_eq!(out[1].1, by("true"));
    assert_eq!(out[2].0, by("access-control-allow-methods"));
    assert_eq!(out[2].1, by("*"));
    assert_eq!(out[3].0, by("X-Custom"));
    assert_eq!(out[3].1, by("kept"));
}

#[test]
fn textual_content_types_are_recognised() {
    assert!(is_textual(b"text/html"));
    assert!(is_textual(b"text/html; charset=utf-8"));
    assert!(is_textual(b"application/json"));
    assert!(is_textual(b"text/css"));
    assert!(is_textual(b"text/javascript"));
    assert!(is_textual(b"application/xhtml+xml"));
    assert!(!is_textual(b"image/png"));
    assert!(!is_textual(b"application/octet-stream"));
}

#[test]
fn sentinel_extension_heals_to_the_mime_extension() {
    let ct = by("application/json");
    let plan = plan_forward_response(&by("/ar/data.unknown_ext"), Method::Get, Some(&ct));
    assert_eq!(plan.write_path, by("/ar/data.json"));
    assert!(plan.link);
    assert!(plan.textual);
    assert!(plan.persist);
}

#[test]
fn healed_extension_comes_from_the_content_type() {
    let ct = by("text/html");
    let plan = plan_forward_response(&by("/ar/index.GET.unknown_ext"), Method::Get, Some(&ct));
    assert_eq!(plan.write_path, by("/ar/index.GET.htm"));
    assert!(plan.link);
}

#[test]
fn ordinary_extension_is_not_healed() {
    let ct = by("image/png");
    let plan = plan_forward_response(&by("/ar/img/a.png"), Method::Get, Some(&ct));
    assert_eq!(plan.write_path, by("/ar/img/a.png"));
    assert!(!plan.link);
    assert!(!plan.textual);
}

#[test]
fn sentinel_without_content_type_is_not_healed() {
    let plan = plan_forward_response(&by("/ar/data.unknown_ext"), Method::Get, None);
    assert_eq!(plan.write_path, by("/ar/data.unknown_ext"));
    assert!(!plan.link);
}

#[test]
fn inbound_content_type_is_the_one_forwarded() {
    let hs = vec![
        (by("method"), by("POST")),
        (by("Content-Type"), by("text/plain")),
        (by("X-Other"), by("x")),
    ];
    assert_eq!(forwarded_content_type(&hs), Some(by("text/plain")));
    let none = vec![(by("method"), by("POST"))];
    assert_eq!(forwarded_content_type(&none), None);
}

#[test]
fn dotless_sentinel_name_heals_to_the_mime_extension() {
    let ct = by("application/json");
    let plan = plan_forward_response(&by("/ar/dataunknown_ext"), Method::Get, Some(&ct));
    assert_eq!(plan.write_path, by("/ar/data.json"));
    assert!(plan.link);
    assert!(plan.textual);
    assert!(plan.persist);
}

#[test]
fn dotless_sentinel_without_known_extension_is_not_healed() {
    let ct = by("application/x-no-such-type");
    let plan = plan_forward_response(&by("/ar/dataunknown_ext"), Method::Get, Some(&ct));
    assert_eq!(plan.write_path, by("/ar/dataunknown_ext"));
    assert!(!plan.link);
}

#[test]
fn rewriting_twice_with_prefix_changes_nothing() {
    let body = by("a https://api.example.com/x b api.example.com c");
    let pl = by("local-base/");
    let once = rewrite_body(&body, b"api.example.com", b"localhost:3000", Some(&pl));
    let twice = rewrite_body(&once, b"api.example.com", b"localhost:3000", Some(&pl));
    assert_eq!(once, twice);
}
