use caching_proxy::cache::{ProxyResponse, ResponseCache};
use caching_proxy::controller::{Action, Controller, BAD_REQUEST, DEFAULT_TTL_MS};
use caching_proxy::forward::{prepare_forward, take_origin, ForwardError};
use caching_proxy::order::{bytes_le_exec, header_le_exec};
use caching_proxy::request::{fingerprint, fingerprint_bytes, sort_headers, HttpVersion, ProxyRequest};

fn h(name: &str, value: &str) -> (Vec<u8>, Vec<u8>) {
    (name.as_bytes().to_vec(), value.as_bytes().to_vec())
}

fn request(method: &str, path: Option<&str>, headers: Vec<(Vec<u8>, Vec<u8>)>) -> ProxyRequest {
    ProxyRequest {
        method: method.as_bytes().to_vec(),
        target: path.unwrap_or("*").as_bytes().to_vec(),
        path_and_query: path.map(|p| p.as_bytes().to_vec()),
        version: HttpVersion::Http11,
        headers,
    }
}

fn upstream(status: u16, body: &str) -> ProxyResponse {
    ProxyResponse {
        status,
        version: HttpVersion::Http2,
        headers: vec![h("content-type", "text/plain"), h("x-served-by", "origin")],
        body: body.as_bytes().to_vec(),
    }
}

fn same_response(a: &ProxyResponse, b: &ProxyResponse) -> bool {
    a.status == b.status && a.version == b.version && a.headers == b.headers && a.body == b.body
}

#[test]
fn bytes_order_is_lexicographic() {
    assert!(bytes_le_exec(b"abc", b"abd"));
    assert!(!bytes_le_exec(b"abd", b"abc"));
    assert!(bytes_le_exec(b"ab", b"abc"));
    assert!(!bytes_le_exec(b"abc", b"ab"));
    assert!(bytes_le_exec(b"", b""));
    assert!(bytes_le_exec(b"same", b"same"));
}

#[test]
fn headers_order_by_name_then_value() {
    assert!(header_le_exec(&h("a", "z"), &h("b", "a")));
    assert!(header_le_exec(&h("a", "a"), &h("a", "b")));
    assert!(!header_le_exec(&h("a", "b"), &h("a", "a")));
}

#[test]
fn sort_headers_is_canonical() {
    let hs = vec![h("x-b", "2"), h("accept", "*/*"), h("x-b", "1"), h("host", "h")];
    let sorted = sort_headers(&hs);
    assert_eq!(sorted, vec![h("accept", "*/*"), h("host", "h"), h("x-b", "1"), h("x-b", "2")]);
    assert_eq!(hs.len(), 4);
}

#[test]
fn fingerprint_ignores_header_order() {
    let a = request("GET", Some("/a?q=1"), vec![h("origin", "https://api.example.com"), h("accept", "*/*")]);
    let b = request("GET", Some("/a?q=1"), vec![h("accept", "*/*"), h("origin", "https://api.example.com")]);
    assert_eq!(fingerprint(&a), fingerprint(&b));
    assert_eq!(fingerprint_bytes(&a), fingerprint_bytes(&b));
}

#[test]
fn fingerprint_separates_requests() {
    let a = request("GET", Some("/a"), vec![h("origin", "https://api.example.com")]);
    let b = request("POST", Some("/a"), vec![h("origin", "https://api.example.com")]);
    let c = request("GET", Some("/b"), vec![h("origin", "https://api.example.com")]);
    let mut d = request("GET", Some("/a"), vec![h("origin", "https://api.example.com")]);
    d.version = HttpVersion::Http10;
    assert_ne!(fingerprint(&a), fingerprint(&b));
    assert_ne!(fingerprint(&a), fingerprint(&c));
    assert_ne!(fingerprint(&a), fingerprint(&d));
    assert_ne!(fingerprint_bytes(&a), fingerprint_bytes(&b));
}

#[test]
fn fingerprint_bytes_are_framed() {
    let r = ProxyRequest {
        method: b"GET".to_vec(),
        target: b"/".to_vec(),
        path_and_query: Some(b"/".to_vec()),
        version: HttpVersion::Http11,
        headers: vec![h("b", "2"), h("a", "1")],
    };
    let mut expected: Vec<u8> = vec![3, 0, 0, 0, 0, 0, 0, 0];
    expected.extend_from_slice(b"GET");
    expected.extend_from_slice(&[1, 0, 0, 0, 0, 0, 0, 0, b'/', 2]);
    expected.extend_from_slice(&[1, 0, 0, 0, 0, 0, 0, 0, b'a', 1, 0, 0, 0, 0, 0, 0, 0, b'1']);
    expected.extend_from_slice(&[1, 0, 0, 0, 0, 0, 0, 0, b'b', 1, 0, 0, 0, 0, 0, 0, 0, b'2']);
    assert_eq!(fingerprint_bytes(&r), expected);
}

#[test]
fn take_origin_removes_every_directive() {
    let hs = vec![h("accept", "*/*"), h("origin", "https://a.example"), h("host", "x"), h("origin", "https://b.example")];
    let (origin, rest) = take_origin(&hs);
    assert_eq!(origin, Some(b"https://a.example".to_vec()));
    assert_eq!(rest, vec![h("accept", "*/*"), h("host", "x")]);
}

#[test]
fn forward_builds_outbound_uri() {
    let r = request("GET", Some("/v1/items?page=2"), vec![h("origin", "https://api.example.com"), h("accept", "*/*")]);
    let out = prepare_forward(&r).ok().unwrap();
    assert_eq!(out.target, b"https://api.example.com/v1/items?page=2".to_vec());
    assert_eq!(out.uri.to_string(), "https://api.example.com/v1/items?page=2");
    assert_eq!(out.uri.host(), Some("api.example.com"));
    assert_eq!(out.headers, vec![h("accept", "*/*")]);
}

#[test]
fn forward_defaults_to_root_path() {
    let r = request("GET", None, vec![h("origin", "http://localhost:8080")]);
    let out = prepare_forward(&r).ok().unwrap();
    assert_eq!(out.target, b"http://localhost:8080/".to_vec());
    assert_eq!(out.uri.port_u16(), Some(8080));
    assert!(out.headers.is_empty());
}

#[test]
fn forward_without_origin_is_rejected() {
    let r = request("GET", Some("/"), vec![h("accept", "*/*")]);
    assert!(matches!(prepare_forward(&r), Err(ForwardError::OriginMissing)));
}

#[test]
fn forward_with_unparsable_origin_is_rejected() {
    let r = request("GET", Some("/"), vec![h("origin", "https://bad host")]);
    assert!(matches!(prepare_forward(&r), Err(ForwardError::OriginUnparsable)));
    let r = request("GET", Some("/"), vec![(b"origin".to_vec(), vec![b'h', 1, b'x'])]);
    assert!(matches!(prepare_forward(&r), Err(ForwardError::OriginUnparsable)));
}

#[test]
fn cache_entry_fresh_until_expiry() {
    let mut c = ResponseCache::new();
    c.insert(7, upstream(200, "hello"), 30_000, 1_000);
    let hit = c.lookup(7, 1_000).unwrap();
    assert_eq!(hit.expiry, 31_000);
    assert!(same_response(&hit.response, &upstream(200, "hello")));
    assert!(c.lookup(7, 30_999).is_some());
    assert!(c.lookup(7, 31_000).is_none());
    assert!(c.lookup(8, 1_000).is_none());
    assert_eq!(c.len(), 1);
}

#[test]
fn cache_insert_replaces_entry() {
    let mut c = ResponseCache::new();
    c.insert(7, upstream(200, "old"), 10, 0);
    c.insert(7, upstream(201, "new"), 10, 5);
    let hit = c.lookup(7, 12).unwrap();
    assert_eq!(hit.response.status, 201);
    assert_eq!(hit.response.body, b"new".to_vec());
    assert_eq!(c.len(), 1);
}

#[test]
fn sweep_removes_only_expired() {
    let mut c = ResponseCache::new();
    c.insert(1, upstream(200, "a"), 10, 0);
    c.insert(2, upstream(200, "b"), 20, 0);
    c.insert(3, upstream(200, "c"), 5, 0);
    c.sweep(10);
    assert_eq!(c.len(), 1);
    assert!(c.lookup(2, 10).is_some());
    c.sweep(21);
    assert_eq!(c.len(), 0);
}

#[test]
fn missing_origin_yields_bad_request() {
    let ctl = Controller::new();
    let r = request("GET", Some("/"), vec![h("accept", "*/*")]);
    match ctl.process(&r, 0) {
        Action::Respond(resp) => {
            assert_eq!(resp.status, BAD_REQUEST);
            assert!(resp.body.is_empty());
        }
        Action::Forward { .. } => panic!("forwarded a request without origin"),
    }
    assert_eq!(ctl.cached_count(), 0);
}

#[test]
fn miss_forwards_then_hit_replays() {
    let mut ctl = Controller::new();
    assert_eq!(ctl.ttl(), DEFAULT_TTL_MS);
    let r = request("GET", Some("/x"), vec![h("origin", "https://api.example.com"), h("accept", "*/*")]);
    let mut upstream_calls = 0;
    let mut answers: Vec<ProxyResponse> = Vec::new();
    for now in [1_000u64, 2_000, 30_999] {
        match ctl.process(&r, now) {
            Action::Respond(resp) => answers.push(resp),
            Action::Forward { fingerprint: fp, request } => {
                upstream_calls += 1;
                assert_eq!(fp, fingerprint(&r));
                assert_eq!(request.target, b"https://api.example.com/x".to_vec());
                assert_eq!(request.headers, vec![h("accept", "*/*")]);
                let back = ctl.complete(fp, upstream(200, "payload"), now);
                assert!(same_response(&back, &upstream(200, "payload")));
                answers.push(back);
            }
        }
    }
    assert_eq!(upstream_calls, 1);
    for a in &answers {
        assert!(same_response(a, &upstream(200, "payload")));
    }
    assert!(ctl.cached(fingerprint(&r), 30_999).is_some());
    assert!(matches!(ctl.process(&r, 31_000), Action::Forward { .. }));
}

#[test]
fn hits_do_not_extend_expiry() {
    let mut ctl = Controller::with_ttl(100);
    let r = request("GET", Some("/"), vec![h("origin", "https://api.example.com")]);
    let fp = fingerprint(&r);
    ctl.complete(fp, upstream(200, "x"), 0);
    for now in 0..100u64 {
        assert!(matches!(ctl.process(&r, now), Action::Respond(_)));
    }
    assert!(ctl.cached(fp, 99).is_some());
    assert!(ctl.cached(fp, 100).is_none());
}

#[test]
fn sweeper_clears_expired_entries() {
    let mut ctl = Controller::with_ttl(100);
    ctl.complete(1, upstream(200, "a"), 0);
    ctl.complete(2, upstream(200, "b"), 50);
    ctl.clear_expired_cache(101);
    assert_eq!(ctl.cached_count(), 1);
    assert!(ctl.cached(2, 101).is_some());
    assert!(ctl.cached(1, 99).is_none());
}

#[test]
fn distinct_requests_keep_their_entries() {
    let mut ctl = Controller::with_ttl(1_000);
    let mut fps: Vec<u64> = Vec::new();
    for i in 0..8u64 {
        let path = format!("/item/{}", i);
        let r = request("GET", Some(&path), vec![h("origin", "https://api.example.com")]);
        match ctl.process(&r, i) {
            Action::Forward { fingerprint: fp, .. } => {
                ctl.complete(fp, upstream(200, &path), i);
                fps.push(fp);
            }
            Action::Respond(_) => panic!("unexpected hit"),
        }
        ctl.clear_expired_cache(i);
    }
    for (i, fp) in fps.iter().enumerate() {
        let got = ctl.cached(*fp, 10).unwrap();
        assert_eq!(got.body, format!("/item/{}", i).into_bytes());
    }
}
