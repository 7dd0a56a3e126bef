use minio_sign::canonical::{checked_canonical_request, get_canonical_request};
use minio_sign::encode::{uri_encode, uri_encode_str};
use minio_sign::error::SignError;
use hyper::header::{HeaderMap, HeaderName, HeaderValue};
use minio_sign::headers::get_headers_to_sign;
use minio_sign::query::{get_canonical_querystr, query_names_distinct};
use minio_sign::request::{aws_format_time, mk_path, mk_scope, token_ok, S3Req, Timestamp};

fn ts(y: u16, mo: u8, d: u8, h: u8, mi: u8, s: u8) -> Timestamp {
    Timestamp::new(y, mo, d, h, mi, s).unwrap()
}

fn req(bucket: Option<&str>, object: Option<&str>) -> S3Req {
    S3Req {
        method: "GET".to_string(),
        bucket: bucket.map(|b| b.to_string()),
        object: object.map(|o| o.to_string()),
        query: Vec::new(),
        headers: HeaderMap::new(),
        ts: ts(2023, 1, 1, 0, 0, 0),
    }
}

fn set(h: &mut HeaderMap, name: &str, value: &[u8]) {
    h.insert(
        HeaderName::from_bytes(name.as_bytes()).unwrap(),
        HeaderValue::from_bytes(value).unwrap(),
    );
}

fn add(h: &mut HeaderMap, name: &str, value: &str) {
    h.append(
        HeaderName::from_bytes(name.as_bytes()).unwrap(),
        HeaderValue::from_str(value).unwrap(),
    );
}

fn pairs(v: &[(&str, &str)]) -> Vec<(String, String)> {
    v.iter().map(|(a, b)| (a.to_string(), b.to_string())).collect()
}

fn query(v: &[(&str, Option<&str>)]) -> Vec<(String, Option<String>)> {
    v.iter().map(|(k, x)| (k.to_string(), x.map(|s| s.to_string()))).collect()
}

#[test]
fn encode_unreserved_chars_pass_through() {
    for c in "AZaz09_-.~".chars() {
        assert_eq!(uri_encode(c, true), c.to_string());
        assert_eq!(uri_encode(c, false), c.to_string());
    }
}

#[test]
fn encode_slash_policy() {
    assert_eq!(uri_encode('/', true), "%2F");
    assert_eq!(uri_encode('/', false), "/");
}

#[test]
fn encode_reserved_and_multibyte() {
    assert_eq!(uri_encode(' ', true), "%20");
    assert_eq!(uri_encode('+', false), "%2B");
    assert_eq!(uri_encode('\n', true), "%0A");
    assert_eq!(uri_encode('é', true), "%C3%A9");
    assert_eq!(uri_encode('€', true), "%E2%82%AC");
    assert_eq!(uri_encode('😀', true), "%F0%9F%98%80");
}

#[test]
fn encode_string() {
    assert_eq!(uri_encode_str("a b/c", false), "a%20b/c");
    assert_eq!(uri_encode_str("a b/c", true), "a%20b%2Fc");
    assert_eq!(uri_encode_str("", true), "");
    assert_eq!(uri_encode_str("x=é", true), "x%3D%C3%A9");
}

#[test]
fn encode_unreserved_string_round_trip() {
    let s = "Hello-World_0.9~z";
    let e = uri_encode_str(s, true);
    assert_eq!(e, s);
    assert_eq!(uri_encode_str(s, false), s);
}

#[test]
fn headers_insert_lowercases_and_replaces() {
    let mut h = HeaderMap::new();
    set(&mut h, "Host", "a".as_bytes());
    set(&mut h, "HOST", "b".as_bytes());
    set(&mut h, "X-Custom", "c".as_bytes());
    let v = get_headers_to_sign(&h).unwrap();
    assert_eq!(v, pairs(&[("host", "b"), ("x-custom", "c")]));
}

#[test]
fn excluded_headers_never_signed_any_case() {
    let mut h = HeaderMap::new();
    set(&mut h, "AUTHORIZATION", "x".as_bytes());
    set(&mut h, "content-length", "3".as_bytes());
    set(&mut h, "Content-Type", "text/plain".as_bytes());
    set(&mut h, "User-Agent", "ua".as_bytes());
    set(&mut h, "user-AGENT", "ua2".as_bytes());
    set(&mut h, "host", "s3.amazonaws.com".as_bytes());
    let v = get_headers_to_sign(&h).unwrap();
    assert_eq!(v, pairs(&[("host", "s3.amazonaws.com")]));
}

#[test]
fn signed_headers_sorted_by_name() {
    let mut h = HeaderMap::new();
    set(&mut h, "x-b", "2".as_bytes());
    set(&mut h, "x-a", "9".as_bytes());
    set(&mut h, "host", "h".as_bytes());
    set(&mut h, "x-ab", "1".as_bytes());
    set(&mut h, "content-md5", "m".as_bytes());
    let v = get_headers_to_sign(&h).unwrap();
    assert_eq!(
        v,
        pairs(&[("content-md5", "m"), ("host", "h"), ("x-a", "9"), ("x-ab", "1"), ("x-b", "2")])
    );
}

#[test]
fn repeated_name_sorted_by_value() {
    let mut h = HeaderMap::new();
    add(&mut h, "x-multi", "zeta");
    add(&mut h, "x-multi", "alpha");
    add(&mut h, "x-multi", "alpha");
    add(&mut h, "a-first", "1");
    let v = get_headers_to_sign(&h).unwrap();
    assert_eq!(
        v,
        pairs(&[("a-first", "1"), ("x-multi", "alpha"), ("x-multi", "alpha"), ("x-multi", "zeta")])
    );
}

#[test]
fn raw_high_byte_in_header_value_is_rejected() {
    let mut h = HeaderMap::new();
    set(&mut h, "host", b"ok");
    set(&mut h, "x-bin", b"a\x80b");
    match get_headers_to_sign(&h) {
        Err(SignError::EncodingError { name }) => assert_eq!(name, "x-bin"),
        other => panic!("unexpected {:?}", other),
    }
}

#[test]
fn signed_headers_empty_set() {
    let h = HeaderMap::new();
    assert_eq!(get_headers_to_sign(&h).unwrap(), Vec::<(String, String)>::new());
}

#[test]
fn non_ascii_header_value_is_rejected() {
    let mut h = HeaderMap::new();
    set(&mut h, "host", "ok".as_bytes());
    set(&mut h, "x-meta", "caf\u{e9}".as_bytes());
    set(&mut h, "x-other", "\u{ff}".as_bytes());
    match get_headers_to_sign(&h) {
        Err(SignError::EncodingError { name }) => assert!(name == "x-meta" || name == "x-other"),
        other => panic!("unexpected {:?}", other),
    }
}

#[test]
fn non_ascii_value_of_excluded_header_is_ignored() {
    let mut h = HeaderMap::new();
    set(&mut h, "user-agent", "caf\u{e9}".as_bytes());
    set(&mut h, "host", "ok\tfine".as_bytes());
    assert_eq!(get_headers_to_sign(&h).unwrap(), pairs(&[("host", "ok\tfine")]));
}

#[test]
fn query_empty() {
    assert_eq!(get_canonical_querystr(&Vec::new()), "");
}

#[test]
fn query_sorted_and_encoded() {
    let q = query(&[("prefix", Some("a/b c")), ("delimiter", Some("/")), ("max-keys", Some("10"))]);
    assert_eq!(
        get_canonical_querystr(&q),
        "delimiter=%2F&max-keys=10&prefix=a%2Fb%20c"
    );
}

#[test]
fn query_flag_has_no_equals() {
    let q = query(&[("uploads", None), ("acl", None), ("b", Some(""))]);
    assert_eq!(get_canonical_querystr(&q), "acl&b=&uploads");
}

#[test]
fn query_order_of_input_is_irrelevant() {
    let a = query(&[("x", Some("1")), ("y", None), ("a b", Some("é"))]);
    let b = query(&[("y", None), ("a b", Some("é")), ("x", Some("1"))]);
    let c = query(&[("a b", Some("é")), ("x", Some("1")), ("y", None)]);
    let ra = get_canonical_querystr(&a);
    assert_eq!(ra, "a%20b=%C3%A9&x=1&y");
    assert_eq!(get_canonical_querystr(&b), ra);
    assert_eq!(get_canonical_querystr(&c), ra);
}

#[test]
fn path_variants() {
    assert_eq!(mk_path(&req(None, None)), "");
    assert_eq!(mk_path(&req(Some("mybucket"), None)), "mybucket");
    assert_eq!(mk_path(&req(Some("mybucket"), Some("a b/c"))), "mybucket/a b/c");
}

#[test]
fn path_encoding_keeps_slash() {
    let p = mk_path(&req(Some("mybucket"), Some("a b/c")));
    assert_eq!(uri_encode_str(&p, false), "mybucket/a%20b/c");
}

#[test]
fn timestamp_validation() {
    assert!(Timestamp::new(2024, 2, 29, 0, 0, 0).is_some());
    assert!(Timestamp::new(2023, 2, 29, 0, 0, 0).is_none());
    assert!(Timestamp::new(1900, 2, 29, 0, 0, 0).is_none());
    assert!(Timestamp::new(2000, 2, 29, 0, 0, 0).is_some());
    assert!(Timestamp::new(2023, 4, 31, 0, 0, 0).is_none());
    assert!(Timestamp::new(2023, 13, 1, 0, 0, 0).is_none());
    assert!(Timestamp::new(2023, 1, 1, 24, 0, 0).is_none());
    assert!(Timestamp::new(10000, 1, 1, 0, 0, 0).is_none());
    assert!(Timestamp::new(999, 1, 1, 0, 0, 0).is_none());
    assert!(Timestamp::new(2023, 1, 1, 0, 60, 0).is_none());
    assert!(Timestamp::new(2023, 1, 1, 0, 0, 61).is_none());
    assert!(Timestamp::new(2023, 1, 0, 0, 0, 0).is_none());
}

#[test]
fn format_time_fixed_width() {
    assert_eq!(aws_format_time(&ts(2023, 1, 1, 0, 0, 0)), "20230101T000000Z");
    assert_eq!(aws_format_time(&ts(1999, 12, 31, 23, 59, 59)), "19991231T235959Z");
    assert_eq!(aws_format_time(&ts(1000, 3, 4, 5, 6, 7)), "10000304T050607Z");
    assert_eq!(aws_format_time(&ts(2016, 12, 31, 23, 59, 60)), "20161231T235960Z");
}

#[test]
fn scope_format() {
    assert_eq!(
        mk_scope(&ts(2023, 1, 1, 12, 30, 0), "us-east-1"),
        "20230101/us-east-1/s3/aws4_request"
    );
}

#[test]
fn canonical_request_service_level_get() {
    let mut r = req(None, None);
    set(&mut r.headers, "host", "s3.amazonaws.com".as_bytes());
    let c = get_canonical_request(&mut r).unwrap();
    assert_eq!(
        c,
        "GET\n\n\nhost:s3.amazonaws.com\nx-amz-date:20230101T000000Z\n\nhost;x-amz-date\nUNSIGNED-PAYLOAD"
    );
}

#[test]
fn canonical_request_inserts_date_header() {
    let mut r = req(Some("b"), None);
    set(&mut r.headers, "X-Amz-Date", "stale".as_bytes());
    get_canonical_request(&mut r).unwrap();
    let v = get_headers_to_sign(&r.headers).unwrap();
    assert_eq!(v, pairs(&[("x-amz-date", "20230101T000000Z")]));
}

#[test]
fn canonical_request_full() {
    let mut r = req(Some("mybucket"), Some("a b/c"));
    r.method = "PUT".to_string();
    r.query = query(&[("versionId", Some("3")), ("acl", None)]);
    set(&mut r.headers, "Host", "localhost:9000".as_bytes());
    set(&mut r.headers, "Content-Type", "text/plain".as_bytes());
    set(&mut r.headers, "Authorization", "old".as_bytes());
    r.ts = ts(2020, 6, 15, 8, 9, 10);
    let c = get_canonical_request(&mut r).unwrap();
    assert_eq!(
        c,
        "PUT\nmybucket/a%20b/c\nacl&versionId=3\nhost:localhost:9000\nx-amz-date:20200615T080910Z\n\nhost;x-amz-date\nUNSIGNED-PAYLOAD"
    );
}

#[test]
fn canonical_request_non_ascii_header_fails() {
    let mut r = req(None, None);
    set(&mut r.headers, "host", "s3.amazonaws.com".as_bytes());
    set(&mut r.headers, "x-amz-meta-name", "na\u{ef}ve".as_bytes());
    match get_canonical_request(&mut r) {
        Err(SignError::EncodingError { name }) => assert_eq!(name, "x-amz-meta-name"),
        other => panic!("unexpected {:?}", other),
    }
}

#[test]
fn canonical_request_object_without_bucket_fails() {
    let mut r = req(None, Some("key"));
    set(&mut r.headers, "host", "h".as_bytes());
    match get_canonical_request(&mut r) {
        Err(SignError::InvalidRequestState) => {}
        other => panic!("unexpected {:?}", other),
    }
    assert_eq!(get_headers_to_sign(&r.headers).unwrap(), pairs(&[("host", "h")]));
}

#[test]
fn method_tokens() {
    assert!(token_ok("GET"));
    assert!(token_ok("M-SEARCH"));
    assert!(!token_ok(""));
    assert!(!token_ok("GET\nX"));
    assert!(!token_ok("G T"));
}

#[test]
fn distinct_query_names() {
    assert!(query_names_distinct(&query(&[("a", None), ("b", Some("1"))])));
    assert!(!query_names_distinct(&query(&[("a", None), ("b", None), ("a", Some("1"))])));
    assert!(query_names_distinct(&Vec::new()));
}

#[test]
fn checked_request_signs_valid_input() {
    let mut r = req(None, None);
    set(&mut r.headers, "host", b"s3.amazonaws.com");
    let c = checked_canonical_request(&mut r).unwrap().unwrap();
    assert_eq!(
        c,
        "GET\n\n\nhost:s3.amazonaws.com\nx-amz-date:20230101T000000Z\n\nhost;x-amz-date\nUNSIGNED-PAYLOAD"
    );
}

#[test]
fn checked_request_refuses_bad_input() {
    let mut r = req(None, None);
    r.method = "GET\nX".to_string();
    assert!(checked_canonical_request(&mut r).is_none());
    assert!(get_headers_to_sign(&r.headers).unwrap().is_empty());

    let mut r = req(None, None);
    r.ts.day = 31;
    r.ts.month = 2;
    assert!(checked_canonical_request(&mut r).is_none());

    let mut r = req(None, None);
    r.query = query(&[("a", None), ("a", Some("1"))]);
    assert!(checked_canonical_request(&mut r).is_none());
}

#[test]
fn checked_request_keeps_errors() {
    let mut r = req(None, Some("key"));
    assert!(matches!(
        checked_canonical_request(&mut r),
        Some(Err(SignError::InvalidRequestState))
    ));
}
