use archive_proxy::config::compress_output_name;
use archive_proxy::config::effective_rewrite_host;
use archive_proxy::config::prefix_local_acceptable;
use archive_proxy::config::upstream_url;
use archive_proxy::hashstate::u64_to_hex;
use archive_proxy::hashstate::LargeState;
use archive_proxy::mimewrap::content_type_for;
use archive_proxy::serve::serve_header;
use archive_proxy::serve::zip_entry_path;
use archive_proxy::stream::choose_delivery;
use archive_proxy::stream::split_chunks;
use archive_proxy::stream::BinaryTee;
use archive_proxy::stream::Delivery;
use archive_proxy::CompressFormat;

fn bs(s: &str) -> Vec<u8> {
    s.as_bytes().to_vec()
}

#[test]
fn content_type_comes_from_the_extension() {
    assert_eq!(content_type_for(b"img/a.png"), bs("image/png"));
    assert_eq!(content_type_for(b"main.css"), bs("text/css"));
}

#[test]
fn unknown_extension_falls_back_to_text_html() {
    assert_eq!(content_type_for(b"index.GET.unknown_ext"), bs("text/html"));
    assert_eq!(content_type_for(b"noext"), bs("text/html"));
}

#[test]
fn found_entry_is_served_with_its_type() {
    let h = serve_header(true, b"a.json");
    assert_eq!(h.status, 200);
    assert_eq!(h.content_type, bs("application/json"));
}

#[test]
fn missing_entry_is_a_404() {
    let h = serve_header(false, b"a.json");
    assert_eq!(h.status, 404);
}

#[test]
fn zip_entry_name_drops_the_archive_root() {
    assert_eq!(zip_entry_path(b"/ar", &bs("/ar/img/a.png")), bs("img/a.png"));
    assert_eq!(zip_entry_path(b"/ar", &bs("elsewhere/a.png")), bs("elsewhere/a.png"));
}

#[test]
fn small_bodies_are_sent_in_one_piece() {
    assert_eq!(choose_delivery(0), Delivery::Single);
    assert_eq!(choose_delivery(262144), Delivery::Single);
    assert_eq!(choose_delivery(262145), Delivery::Chunked);
}

#[test]
fn large_bodies_are_cut_into_small_chunks() {
    let data: Vec<u8> = (0..5000u32).map(|i| (i % 251) as u8).collect();
    let chunks = split_chunks(&data);
    assert_eq!(chunks.len(), 2);
    assert_eq!(chunks[0].len(), 4096);
    assert_eq!(chunks[1].len(), 904);
    let mut glued: Vec<u8> = Vec::new();
    for c in &chunks {
        glued.extend_from_slice(c);
    }
    assert_eq!(glued, data);
}

#[test]
fn short_body_is_one_chunk() {
    let data = bs("tiny");
    let chunks = split_chunks(&data);
    assert_eq!(chunks.len(), 1);
    assert_eq!(chunks[0], data);
}

#[test]
fn empty_body_has_no_chunks() {
    let chunks = split_chunks(&Vec::new());
    assert_eq!(chunks.len(), 0);
}

#[test]
fn binary_capture_tracks_both_sides() {
    let mut tee = BinaryTee::new();
    tee.record_chunk(&bs("abc"));
    tee.record_chunk(&bs("def"));
}

#[test]
fn default_rewrite_host_is_localhost_with_the_port() {
    assert_eq!(effective_rewrite_host(None, 3000), bs("localhost:3000"));
    assert_eq!(effective_rewrite_host(None, 80), bs("localhost:80"));
    assert_eq!(effective_rewrite_host(Some(bs("other:1")), 3000), bs("other:1"));
}

#[test]
fn upstream_url_mirrors_the_request() {
    assert_eq!(
        upstream_url(true, b"api.example.com", b"img/a.png"),
        bs("https://api.example.com/img/a.png")
    );
    assert_eq!(upstream_url(false, b"h", b""), bs("http://h/"));
}

#[test]
fn prefix_local_with_a_scheme_is_refused() {
    assert!(prefix_local_acceptable(&bs("my-base/")));
    assert!(!prefix_local_acceptable(&bs("http://x/")));
}

#[test]
fn packaged_archive_name_gets_the_format_suffix() {
    assert_eq!(compress_output_name(Some(bs("out")), b"dir", b".zip"), bs("out.zip"));
    assert_eq!(compress_output_name(Some(bs("out.zip")), b"dir", b".zip"), bs("out.zip"));
    assert_eq!(compress_output_name(None, b"dir", b".zip"), bs("dir.zip"));
}

#[test]
fn compress_format_extension() {
    assert_eq!(CompressFormat::Zip.ext(), ".zip");
}

#[test]
fn hex_is_lower_case_without_leading_zeros() {
    assert_eq!(u64_to_hex(0), bs("0"));
    assert_eq!(u64_to_hex(255), bs("ff"));
    assert_eq!(u64_to_hex(0x1a2b3c), bs("1a2b3c"));
}

#[test]
fn capture_digest_is_deterministic() {
    let mut a = LargeState::new(false);
    a.push_bytes(b"hello ");
    a.push_bytes(b"world");
    let (ha, state_a) = a.finish().unwrap();
    let mut b = LargeState::new(false);
    b.push_bytes(b"hello world");
    let (hb, _) = b.finish().unwrap();
    assert_eq!(ha, hb);
    assert!(state_a.is_none());
    assert!(ha.len() <= 16 && !ha.is_empty());
    assert!(ha.iter().all(|c| c.is_ascii_hexdigit()));
    let mut c = LargeState::new(false);
    c.push_bytes(b"something else");
    let (hc, _) = c.finish().unwrap();
    assert_ne!(ha, hc);
}

#[test]
fn saved_capture_names_its_state_file() {
    let mut a = LargeState::new(true);
    a.push_bytes(b"x");
    let (hash, state) = a.finish().unwrap();
    let mut expect = hash.clone();
    expect.extend_from_slice(b".state");
    assert_eq!(state.unwrap(), expect);
}
