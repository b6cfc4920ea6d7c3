use archive_proxy::method::Method;
use archive_proxy::pathmap::normalize_url_path;
use archive_proxy::pathmap::MapError;

fn bv(s: &str) -> Vec<u8> {
    s.as_bytes().to_vec()
}

fn map(
    method: Method,
    query: Vec<(&str, &str)>,
    path: &str,
    with_query: bool,
) -> Result<Vec<u8>, MapError> {
    let q: Vec<(Vec<u8>, Vec<u8>)> = query.iter().map(|(k, v)| (bv(k), bv(v))).collect();
    normalize_url_path(b"/ar", method, q, path.as_bytes(), with_query)
}

#[test]
fn empty_path_maps_to_index_name() {
    let r = map(Method::Get, vec![], "", true).unwrap();
    assert_eq!(r, bv("/ar/index.GET.unknown_ext"));
}

#[test]
fn empty_path_uses_the_method_name() {
    let r = map(Method::Post, vec![], "", true).unwrap();
    assert_eq!(r, bv("/ar/index.POST.unknown_ext"));
}

#[test]
fn trailing_slash_appends_sentinel_to_last_component() {
    let r = map(Method::Get, vec![], "a/b/", true).unwrap();
    assert_eq!(r, bv("/ar/a/bunknown_ext"));
}

#[test]
fn missing_extension_appends_sentinel() {
    let r = map(Method::Get, vec![], "data", true).unwrap();
    assert_eq!(r, bv("/ar/dataunknown_ext"));
}

#[test]
fn extension_is_kept_and_query_folds_into_the_name() {
    let r = map(Method::Get, vec![("v", "2")], "img/a.png", true).unwrap();
    assert_eq!(r, bv("/ar/img/a-v=2.png"));
}

#[test]
fn query_is_left_out_when_not_included() {
    let r = map(Method::Get, vec![("v", "2")], "img/a.png", false).unwrap();
    assert_eq!(r, bv("/ar/img/a.png"));
}

#[test]
fn query_order_does_not_matter() {
    let r1 = map(Method::Get, vec![("b", "2"), ("a", "1")], "x.css", true).unwrap();
    let r2 = map(Method::Get, vec![("a", "1"), ("b", "2")], "x.css", true).unwrap();
    assert_eq!(r1, r2);
    assert_eq!(r1, bv("/ar/x-a=1-b=2.css"));
}

#[test]
fn query_keys_are_sorted_into_the_name() {
    let r = map(Method::Get, vec![("zz", "1"), ("aa", "2")], "f.js", true).unwrap();
    assert_eq!(r, bv("/ar/f-aa=2-zz=1.js"));
}

#[test]
fn query_values_are_percent_encoded() {
    let r = map(Method::Get, vec![("k", "a b/c")], "f.txt", true).unwrap();
    assert_eq!(r, bv("/ar/f-k=a%20b%2Fc.txt"));
}

#[test]
fn empty_query_value_has_no_equals_sign() {
    let r = map(Method::Get, vec![("flag", "")], "f.txt", true).unwrap();
    assert_eq!(r, bv("/ar/f-flag.txt"));
}

#[test]
fn sentinel_name_still_gets_query_suffix() {
    let r = map(Method::Get, vec![("v", "1")], "data", true).unwrap();
    assert_eq!(r, bv("/ar/dataunknown_ext-v=1"));
}

#[test]
fn parent_escape_is_refused() {
    let r = map(Method::Get, vec![], "../etc/passwd", true);
    assert_eq!(r, Err(MapError::BadRequestPath));
}

#[test]
fn inner_parent_escape_is_refused() {
    let r = map(Method::Get, vec![], "a/../../b", true);
    assert_eq!(r, Err(MapError::BadRequestPath));
}

#[test]
fn leading_slash_is_neutralised() {
    let r = map(Method::Get, vec![], "/etc/passwd", true).unwrap();
    assert_eq!(r, bv("/ar/etc/passwdunknown_ext"));
}

#[test]
fn dot_components_are_neutralised() {
    let r = map(Method::Get, vec![], "./a/./b.txt", true).unwrap();
    assert_eq!(r, bv("/ar/a/b.txt"));
}

#[test]
fn bare_slash_maps_to_index_name() {
    let r = map(Method::Get, vec![], "/", true).unwrap();
    assert_eq!(r, bv("/ar/index.GET.unknown_ext"));
}

#[test]
fn method_parse_matches_known_tokens() {
    assert_eq!(Method::parse(b"POST"), Method::Post);
    assert_eq!(Method::parse(b"DELETE"), Method::Delete);
    assert_eq!(Method::parse(b"GET"), Method::Get);
    assert_eq!(Method::parse(b"nonsense"), Method::Get);
    assert_eq!(Method::parse(b""), Method::Get);
    assert_eq!(Method::parse(b"get"), Method::Get);
}

#[test]
fn query_cannot_smuggle_dots_or_separators() {
    let r = map(Method::Get, vec![("x.y", "..")], "f.txt", true).unwrap();
    assert_eq!(r, bv("/ar/f-x%2Ey=%2E%2E.txt"));
}

#[test]
fn repeated_slashes_collapse() {
    let r = map(Method::Get, vec![], "a//b.txt", true).unwrap();
    assert_eq!(r, bv("/ar/a/b.txt"));
}
