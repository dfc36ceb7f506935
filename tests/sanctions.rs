use std::cmp::Ordering;

use sanctions::address::compare;
use sanctions::error::UpdateError;
use sanctions::feed::{collect_addresses, try_parse, try_update};
use sanctions::path::{normalize_path, path_segments};
use sanctions::router::{
    bad_request, classify, http_version_not_supported, internal_server_error, is_alphanumeric_text,
    method_not_allowed, not_found, respond, service_fn, HttpVersion, Method, Outcome,
};
use sanctions::store::{canonicalize, locate, sorted_contains, DatabaseProvider, InMemoryDatabase};

fn strings(items: &[&str]) -> Vec<String> {
    items.iter().map(|s| s.to_string()).collect()
}

fn loaded(items: &[&str]) -> InMemoryDatabase {
    let mut db = InMemoryDatabase::default();
    db.save_records(strings(items)).unwrap();
    db
}

#[test]
fn replace_then_snapshot_is_sorted_and_distinct() {
    let db = loaded(&["b", "a", "c", "a", "b"]);
    assert_eq!(db.records().unwrap(), strings(&["a", "b", "c"]));
}

#[test]
fn replace_with_nothing_empties_the_store() {
    let mut db = loaded(&["x"]);
    db.save_records(vec![]).unwrap();
    assert_eq!(db.records().unwrap(), Vec::<String>::new());
    assert!(!db.search("x".to_string()).unwrap());
}

#[test]
fn new_store_is_empty() {
    let db = InMemoryDatabase::new();
    assert!(db.records().unwrap().is_empty());
}

#[test]
fn order_is_bytewise() {
    let db = loaded(&["b", "B", "a", "ab", "é", "z"]);
    assert_eq!(db.records().unwrap(), strings(&["B", "a", "ab", "b", "z", "é"]));
}

#[test]
fn search_is_membership() {
    let db = loaded(&["1A2b3C", "zzz", "abc"]);
    assert!(db.search("1A2b3C".to_string()).unwrap());
    assert!(db.search("abc".to_string()).unwrap());
    assert!(!db.search("1a2b3c".to_string()).unwrap());
    assert!(!db.search("".to_string()).unwrap());
}

#[test]
fn search_is_repeatable() {
    let db = loaded(&["q", "r"]);
    for _ in 0..3 {
        assert!(db.search("q".to_string()).unwrap());
        assert!(!db.search("s".to_string()).unwrap());
    }
    assert_eq!(db.records().unwrap(), strings(&["q", "r"]));
}

#[test]
fn compare_orders_bytes() {
    assert_eq!(compare("a", "b"), Ordering::Less);
    assert_eq!(compare("b", "a"), Ordering::Greater);
    assert_eq!(compare("ab", "ab"), Ordering::Equal);
    assert_eq!(compare("ab", "abc"), Ordering::Less);
    assert_eq!(compare("", "a"), Ordering::Less);
    assert_eq!(compare("Z", "a"), Ordering::Less);
}

#[test]
fn normalize_drops_dot_dot_and_slashes() {
    assert_eq!(normalize_path("/a/../b/"), "b");
    assert_eq!(normalize_path("a/./b"), "a/b");
    assert_eq!(normalize_path(""), "");
    assert_eq!(normalize_path("/"), "");
    assert_eq!(normalize_path("/../../x//y/."), "x/y");
    assert_eq!(normalize_path("/api/crypto-sanctions/abc/"), "api/crypto-sanctions/abc");
}

#[test]
fn normalize_is_idempotent() {
    for p in ["/a/../b/", "a/./b", "//x/./y/../z", "", "..", "a/b/c"] {
        let once = normalize_path(p);
        assert_eq!(normalize_path(&once), once);
    }
}

#[test]
fn segments_of_path() {
    assert_eq!(path_segments("/a//b/../c"), strings(&["a", "c"]));
    assert_eq!(path_segments("/"), Vec::<String>::new());
}

#[test]
fn parse_extracts_labelled_address() {
    let payload = b"Digital Currency Address - XBT 1A2b3C".to_vec();
    assert_eq!(try_parse(payload).unwrap(), strings(&["1A2b3C"]));
}

#[test]
fn parse_skips_unlabelled_lines() {
    let payload = b"Some Person, Address 12 Main St\nXBT 1A2b3C\n".to_vec();
    assert_eq!(try_parse(payload).unwrap(), Vec::<String>::new());
}

#[test]
fn parse_collapses_duplicates_and_sorts() {
    let text = "x; Digital Currency Address - XBT zz9; y\n\
                Digital  Currency\tAddress -  ETH 0xab-cd;\n\
                digital currency address - XBT zz9\n\
                Digital Currency Address - XBT zz9\n\
                DigitalCurrencyAddress-USDT aa1\n";
    assert_eq!(try_parse(text.as_bytes().to_vec()).unwrap(), strings(&["0xab-cd", "aa1", "zz9"]));
}

#[test]
fn parse_rejects_invalid_text() {
    assert_eq!(try_parse(vec![0x66, 0xff, 0xfe]), Err(UpdateError::InvalidText));
}

#[test]
fn parse_of_empty_payload_is_empty() {
    assert_eq!(try_parse(vec![]).unwrap(), Vec::<String>::new());
}

#[test]
fn collect_filters_dedups_sorts() {
    let got = collect_addresses(strings(&["b", "", "a", "b", ""]));
    assert_eq!(got, strings(&["a", "b"]));
}

#[test]
fn update_replaces_dataset() {
    let mut db = loaded(&["old"]);
    try_update(&mut db, b"Digital Currency Address - XBT new1".to_vec()).unwrap();
    assert_eq!(db.records().unwrap(), strings(&["new1"]));
}

#[test]
fn failed_update_keeps_dataset() {
    let mut db = loaded(&["old"]);
    assert_eq!(try_update(&mut db, vec![0xc3]), Err(UpdateError::InvalidText));
    assert_eq!(db.records().unwrap(), strings(&["old"]));
}

#[test]
fn alphanumeric_text() {
    assert!(is_alphanumeric_text("1A2b3C"));
    assert!(is_alphanumeric_text("Ünï2"));
    assert!(!is_alphanumeric_text("not-hex!"));
    assert!(!is_alphanumeric_text("a b"));
}

#[test]
fn get_known_address_is_sanctioned() {
    let mut db = InMemoryDatabase::default();
    try_update(&mut db, b"Digital Currency Address - XBT 1A2b3C".to_vec()).unwrap();
    let r = service_fn(&db, HttpVersion::Http11, Method::Get, "/api/crypto-sanctions/1A2b3C");
    assert_eq!(r.status, 200);
    assert_eq!(r.body, "{\"address\": \"1A2b3C\", \"sanctioned\": true}");
    assert!(r.allow.is_none());
}

#[test]
fn get_unknown_address_is_not_sanctioned() {
    let db = loaded(&["1A2b3C"]);
    let r = service_fn(&db, HttpVersion::Http10, Method::Get, "api/crypto-sanctions/zzz/");
    assert_eq!(r.status, 200);
    assert_eq!(r.body, "{\"address\": \"zzz\", \"sanctioned\": false}");
}

#[test]
fn get_non_alphanumeric_is_bad_request() {
    let db = loaded(&["1A2b3C"]);
    let r = service_fn(&db, HttpVersion::Http11, Method::Get, "/api/crypto-sanctions/not-hex!");
    assert_eq!(r.status, 400);
    assert_eq!(r.body, "{\"error\": \"bad request\"}");
}

#[test]
fn post_is_method_not_allowed() {
    let db = loaded(&["1A2b3C"]);
    let r = service_fn(&db, HttpVersion::Http11, Method::Post, "/api/crypto-sanctions/1A2b3C");
    assert_eq!(r.status, 405);
    assert_eq!(r.allow.as_deref(), Some("GET"));
    assert_eq!(r.body, "{\"error\": \"method not allowed\"}");
}

#[test]
fn unknown_path_is_not_found() {
    let db = loaded(&["1A2b3C"]);
    let r = service_fn(&db, HttpVersion::Http11, Method::Get, "/unknown/path");
    assert_eq!(r.status, 404);
    assert_eq!(r.body, "{\"error\": \"not found\"}");
    let r = service_fn(&db, HttpVersion::Http11, Method::Get, "/api/crypto-sanctions");
    assert_eq!(r.status, 404);
    let r = service_fn(&db, HttpVersion::Http11, Method::Post, "/api/other/1A2b3C");
    assert_eq!(r.status, 404);
}

#[test]
fn dot_segments_reach_the_route() {
    let db = loaded(&["abc"]);
    let r = service_fn(&db, HttpVersion::Http11, Method::Get, "/x/../api/./crypto-sanctions//abc");
    assert_eq!(r.status, 200);
    assert_eq!(r.body, "{\"address\": \"abc\", \"sanctioned\": true}");
}

#[test]
fn newer_version_is_not_supported() {
    let db = loaded(&[]);
    let r = service_fn(&db, HttpVersion::Http2, Method::Get, "/api/crypto-sanctions/abc");
    assert_eq!(r.status, 505);
    assert_eq!(r.body, "{\"error\": \"http version not supported\"}");
    let r = service_fn(&db, HttpVersion::Http3, Method::Post, "/unknown");
    assert_eq!(r.status, 505);
}

#[test]
fn classify_in_order() {
    assert!(matches!(classify(HttpVersion::Http2, Method::Post, "/x"), Outcome::VersionNotSupported));
    assert!(matches!(classify(HttpVersion::Http11, Method::Post, "/x"), Outcome::NotFound));
    assert!(matches!(
        classify(HttpVersion::Http11, Method::Delete, "/api/crypto-sanctions/a!"),
        Outcome::MethodNotAllowed
    ));
    assert!(matches!(
        classify(HttpVersion::Http11, Method::Get, "/api/crypto-sanctions/a!"),
        Outcome::BadRequest
    ));
    match classify(HttpVersion::Http09, Method::Get, "/api/crypto-sanctions/a1") {
        Outcome::Lookup(a) => assert_eq!(a, "a1"),
        _ => panic!("expected a lookup"),
    }
}

#[test]
fn respond_renders_each_outcome() {
    let db = loaded(&["k"]);
    assert_eq!(respond(&db, Outcome::Lookup("k".to_string())).body, "{\"address\": \"k\", \"sanctioned\": true}");
    assert_eq!(respond(&db, Outcome::NotFound).status, 404);
    assert_eq!(respond(&db, Outcome::BadRequest).status, 400);
    assert_eq!(respond(&db, Outcome::MethodNotAllowed).status, 405);
    assert_eq!(respond(&db, Outcome::VersionNotSupported).status, 505);
}

#[test]
fn error_responses() {
    assert_eq!(bad_request().status, 400);
    assert_eq!(not_found().body, "{\"error\": \"not found\"}");
    let r = method_not_allowed("GET, HEAD");
    assert_eq!(r.status, 405);
    assert_eq!(r.allow.as_deref(), Some("GET, HEAD"));
    assert_eq!(http_version_not_supported().status, 505);
    let r = internal_server_error();
    assert_eq!(r.status, 500);
    assert_eq!(r.body, "{\"error\": \"internal server error\"}");
}

#[test]
fn canonicalize_sorts_and_dedups() {
    assert_eq!(canonicalize(&strings(&["d", "a", "d", "c", "a"])), strings(&["a", "c", "d"]));
    assert_eq!(canonicalize(&vec![]), Vec::<String>::new());
}

#[test]
fn locate_finds_index_or_insertion_point() {
    let v = strings(&["b", "d", "f"]);
    assert_eq!(locate(&v, "d"), Ok(1));
    assert_eq!(locate(&v, "a"), Err(0));
    assert_eq!(locate(&v, "e"), Err(2));
    assert_eq!(locate(&v, "g"), Err(3));
    assert_eq!(locate(&vec![], "x"), Err(0));
}

#[test]
fn sorted_contains_checks_membership() {
    let v = strings(&["b", "d", "f"]);
    assert!(sorted_contains(&v, "f"));
    assert!(!sorted_contains(&v, "c"));
}
