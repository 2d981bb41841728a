use crap_cache::body::{CacheBody, IncomingTeeSink, Polled};
use crap_cache::cache::MemCache;
use crap_cache::entry::ResponseHead;
use crap_cache::proxy::{
    CacheControlError, CachingProxy, Config, ProxyResponse, RequestCacheControl, RequestHead, Step,
    UpstreamRequest,
};
use hyper::body::Bytes;
use hyper::header::{HeaderName, HeaderValue};
use hyper::HeaderMap;

fn headers(list: &[(&'static str, &str)]) -> HeaderMap<HeaderValue> {
    let mut map = HeaderMap::new();
    for (name, value) in list {
        map.append(*name, HeaderValue::from_str(value).unwrap());
    }
    map
}

fn unreadable() -> HeaderMap<HeaderValue> {
    let mut map = HeaderMap::new();
    map.insert("cache-control", HeaderValue::from_bytes(b"no-cache\xff").unwrap());
    map
}

fn listed(map: &HeaderMap<HeaderValue>) -> Vec<(String, String)> {
    map.iter()
        .map(|(name, value)| (name.to_string(), value.to_str().unwrap().to_string()))
        .collect()
}

fn pair(name: &str, value: &str) -> (String, String) {
    (name.to_string(), value.to_string())
}

fn request(
    method: &str,
    path: &str,
    query: Option<&str>,
    list: &[(&'static str, &str)],
) -> RequestHead {
    RequestHead {
        method: method.to_string(),
        path: path.to_string(),
        query: query.map(|query| query.to_string()),
        headers: headers(list),
    }
}

fn proxy() -> CachingProxy {
    let config = Config { target_host: "neverssl.com".to_string(), target_port: 80 };
    CachingProxy::new(config, MemCache::new(2))
}

fn forwarded(step: Option<Step>) -> (UpstreamRequest, RequestCacheControl, String) {
    match step {
        Some(Step::Forward { request, control, key }) => (request, control, key),
        _ => panic!("not forwarded"),
    }
}

fn responded(step: Option<Step>) -> (ProxyResponse, Bytes) {
    match step {
        Some(Step::Respond(response)) => {
            let body = match &response.body {
                CacheBody::Source(body) => body.clone(),
                _ => panic!("not from the cache"),
            };
            (response, body)
        }
        _ => panic!("no response"),
    }
}

fn watched(response: ProxyResponse) -> (ResponseHead, IncomingTeeSink) {
    match response.body {
        CacheBody::Sink(tee) => (response.head, tee),
        _ => panic!("not watched"),
    }
}

fn received(response: Option<Result<ProxyResponse, CacheControlError>>) -> ProxyResponse {
    match response {
        Some(Ok(response)) => response,
        _ => panic!("no response"),
    }
}

const OPEN: RequestCacheControl = RequestCacheControl { read_cache: true, write_cache: true };

fn control(req: &RequestHead) -> (bool, bool) {
    let control = proxy().configure_caching(req).ok().unwrap();
    (control.read_cache, control.write_cache)
}

#[test]
fn reads_the_cache_for_a_plain_get() {
    assert_eq!(control(&request("GET", "/", None, &[])), (true, true));
    assert_eq!(control(&request("HEAD", "/", None, &[])), (false, true));
    assert_eq!(control(&request("POST", "/", None, &[])), (false, true));
    assert_eq!(control(&request("get", "/", None, &[])), (false, true));
}

#[test]
fn follows_the_directives_of_a_request() {
    let of = |value| control(&request("GET", "/", None, &[("Cache-Control", value)]));
    assert_eq!(of("no-cache"), (false, true));
    assert_eq!(of("no-store"), (true, false));
    assert_eq!(of("max-age=0, no-cache, no-store"), (false, false));
    assert_eq!(of("max-age=0"), (true, true));
    assert_eq!(of("No-Cache"), (true, true));
    let two = request("GET", "/", None, &[("cache-control", "a"), ("cache-control", "no-cache")]);
    assert_eq!(control(&two), (true, true));
}

#[test]
fn rejects_directives_of_a_request_that_are_not_text() {
    let mut req = request("GET", "/", None, &[]);
    req.headers = unreadable();
    assert!(matches!(proxy().configure_caching(&req), Err(CacheControlError::Request(_))));
    match proxy().call(req) {
        Some(Step::Reject(error)) => {
            assert!(matches!(error, CacheControlError::Request(_)));
            assert_eq!(error.message(), "invalid cache-control request header value");
            let source = unreadable()["cache-control"].to_str().unwrap_err();
            assert_eq!(error.into_source().to_string(), source.to_string());
        }
        _ => panic!("not rejected"),
    }
}

#[test]
fn decides_whether_a_response_is_stored() {
    let of = |write_cache, list: &[(&'static str, &str)]| {
        let control = RequestCacheControl { read_cache: true, write_cache };
        let head = ResponseHead { status: 200, headers: headers(list) };
        CachingProxy::cache_response(&control, &head).unwrap()
    };
    assert!(of(true, &[]));
    assert!(of(true, &[("cache-control", "private, no-store")]));
    assert!(!of(true, &[("cache-control", "max-age=60")]));
    assert!(!of(false, &[]));
    assert!(!of(false, &[("cache-control", "no-store")]));
}

#[test]
fn rejects_directives_of_a_response_that_are_not_text() {
    let head = || ResponseHead { status: 200, headers: unreadable() };
    let refused = CachingProxy::cache_response(&OPEN, &head());
    assert!(matches!(refused, Err(CacheControlError::Response(_))));
    match CachingProxy::receive(&OPEN, "k".to_string(), head()) {
        Some(Err(error)) => {
            assert!(matches!(error, CacheControlError::Response(_)));
            assert_eq!(error.message(), "invalid cache-control response header value");
        }
        _ => panic!("not refused"),
    }
    let shut = RequestCacheControl { read_cache: true, write_cache: false };
    assert!(matches!(CachingProxy::cache_response(&shut, &head()), Ok(false)));
}

#[test]
fn makes_keys_of_path_and_query() {
    assert_eq!(request("GET", "/a", Some("b=c"), &[]).key(), "/a::b=c");
    assert_eq!(request("POST", "/a", None, &[("x", "y")]).key(), "/a::");
    assert_eq!(request("GET", "/a", Some(""), &[]).key(), "/a::");
}

#[test]
fn tells_queries_of_one_path_apart() {
    let one = request("GET", "/a", Some("b"), &[]).key();
    let other = request("GET", "/a", Some("c"), &[]).key();
    assert_ne!(one, other);
}

#[test]
fn names_the_upstream_host() {
    let config = Config { target_host: "example.org".to_string(), target_port: 8080 };
    assert_eq!(config.host(), "example.org:8080");
    assert_eq!(config.address("/a/b", "c=d"), "http://example.org:8080//a/b?c=d");
    assert_eq!(config.address("", ""), "http://example.org:8080/?");
}

#[test]
fn forwards_what_is_not_cached() {
    let req = request("GET", "/a", Some("b=c"), &[("Host", "localhost:3000"), ("Accept", "*/*")]);
    let (request, control, key) = forwarded(proxy().call(req));
    assert_eq!(request.uri, "http://neverssl.com:80//a?b=c");
    assert_eq!(
        listed(&request.headers),
        vec![pair("host", "neverssl.com:80"), pair("accept", "*/*")]
    );
    assert!(control.read_cache && control.write_cache);
    assert_eq!(key, "/a::b=c");
}

#[test]
fn writes_the_uri_out() {
    let request = proxy().forward(request("GET", "/a#x", None, &[])).unwrap();
    assert_eq!(request.uri, "http://neverssl.com:80//a");
}

#[test]
fn forwards_to_a_given_uri() {
    let uri = Some("http://else.where/".to_string());
    let forwarded = proxy().forward_to(uri, request("GET", "/a", None, &[])).unwrap();
    assert_eq!(forwarded.uri, "http://else.where/");
    assert_eq!(listed(&forwarded.headers), vec![pair("host", "neverssl.com:80")]);
    assert!(proxy().forward_to(None, request("GET", "/a", None, &[])).is_none());
}

#[test]
fn cannot_forward_to_what_is_no_uri() {
    assert!(proxy().call(request("GET", "/a b", None, &[])).is_none());
    let config = Config { target_host: "bad host".to_string(), target_port: 80 };
    let mut proxy = CachingProxy::new(config, MemCache::new(2));
    assert!(proxy.call(request("GET", "/a", None, &[])).is_none());
}

#[test]
fn cannot_forward_a_host_that_is_no_header_value() {
    let config = Config { target_host: "a\nb".to_string(), target_port: 80 };
    let proxy = CachingProxy::new(config, MemCache::new(2));
    let uri = Some("http://else.where/".to_string());
    assert!(proxy.forward_to(uri, request("GET", "/a", None, &[])).is_none());
}

#[test]
fn marks_a_stored_response_as_a_miss() {
    let head = ResponseHead {
        status: 200,
        headers: headers(&[("Server", "x"), ("X-Crap-Cache", "theirs")]),
    };
    let response = received(CachingProxy::receive(&OPEN, "k".to_string(), head));
    assert_eq!(response.head.status, 200);
    let (head, mut tee) = watched(response);
    assert_eq!(listed(&head.headers), vec![pair("server", "x"), pair("x-crap-cache", "miss")]);
    let mut cache = MemCache::new(1);
    tee.finish(true, &mut cache);
    assert_eq!(
        cache.get_key("k"),
        Some(b"200\nserver:x\nx-crap-cache:theirs\n-\n".to_vec())
    );
}

#[test]
fn marks_any_other_response_as_skipped() {
    let head = ResponseHead {
        status: 500,
        headers: headers(&[("cache-control", "max-age=1"), ("content-length", "x")]),
    };
    let response = received(CachingProxy::receive(&OPEN, "k".to_string(), head));
    assert_eq!(response.head.status, 500);
    assert!(matches!(response.body, CacheBody::Skip));
    assert_eq!(response.head.headers.get("x-crap-cache").unwrap(), "skip");
    assert_eq!(response.head.headers.get("content-length").unwrap(), "x");
}

#[test]
fn cannot_store_a_response_of_unknown_size() {
    let head = ResponseHead { status: 200, headers: headers(&[("content-length", "x")]) };
    assert!(CachingProxy::receive(&OPEN, "k".to_string(), head).is_none());
}

fn fetch(proxy: &mut CachingProxy, path: &str, body: &'static [u8]) {
    let (_, control, key) = forwarded(proxy.call(request("GET", path, None, &[])));
    let head = ResponseHead {
        status: 203,
        headers: headers(&[
            ("Content-Type", "text/plain"),
            ("Content-Length", "6"),
            ("Connection", "close"),
            ("Set-Cookie", "a=1"),
            ("Set-Cookie", "b=2"),
        ]),
    };
    let (_, mut tee) = watched(received(CachingProxy::receive(&control, key, head)));
    tee.poll_frame::<u8, u8>(Polled::Data(Bytes::from_static(body)));
    tee.poll_frame::<u8, u8>(Polled::End);
    proxy.finish(&mut tee, true);
}

#[test]
fn answers_from_the_cache_what_it_has_stored() {
    let mut proxy = proxy();
    fetch(&mut proxy, "/a", b"abcdef");
    let (response, body) = responded(proxy.call(request("GET", "/a", Some(""), &[])));
    assert_eq!(response.head.status, 203);
    assert_eq!(
        listed(&response.head.headers),
        vec![
            pair("x-crap-cache", "hit"),
            pair("content-type", "text/plain"),
            pair("set-cookie", "b=2"),
        ]
    );
    assert_eq!(body, Bytes::from_static(b"abcdef"));
}

#[test]
fn asks_upstream_where_the_request_says_so() {
    let mut proxy = proxy();
    fetch(&mut proxy, "/a", b"abcdef");
    forwarded(proxy.call(request("GET", "/a", None, &[("cache-control", "no-cache")])));
    forwarded(proxy.call(request("HEAD", "/a", None, &[])));
    forwarded(proxy.call(request("GET", "/a", Some("x"), &[])));
    responded(proxy.call(request("GET", "/a", None, &[("cache-control", "no-store")])));
}

#[test]
fn forgets_what_was_used_longest_ago() {
    let mut proxy = proxy();
    fetch(&mut proxy, "/a", b"one");
    fetch(&mut proxy, "/b", b"two");
    responded(proxy.call(request("GET", "/a", None, &[])));
    fetch(&mut proxy, "/c", b"three");
    forwarded(proxy.call(request("GET", "/b", None, &[])));
    let (_, body) = responded(proxy.call(request("GET", "/a", None, &[])));
    assert_eq!(body, Bytes::from_static(b"one"));
}

#[test]
fn stores_nothing_of_a_response_that_breaks_off() {
    let mut proxy = proxy();
    let (_, control, key) = forwarded(proxy.call(request("GET", "/a", None, &[])));
    let head = ResponseHead { status: 200, headers: headers(&[]) };
    let (_, mut tee) = watched(received(CachingProxy::receive(&control, key, head)));
    tee.poll_frame::<u8, u8>(Polled::Data(Bytes::from_static(b"half")));
    proxy.finish(&mut tee, false);
    forwarded(proxy.call(request("GET", "/a", None, &[])));
}

#[test]
fn stores_nothing_where_the_request_forbids_it() {
    let mut proxy = proxy();
    let req = request("GET", "/a", None, &[("cache-control", "no-store")]);
    let (_, control, key) = forwarded(proxy.call(req));
    let head = ResponseHead { status: 200, headers: headers(&[("cache-control", "no-store")]) };
    let response = received(CachingProxy::receive(&control, key, head));
    assert!(matches!(response.body, CacheBody::Skip));
}

#[test]
fn answers_nothing_from_what_is_no_entry() {
    let mut cache = MemCache::new(2);
    cache.store_key("/a::".to_string(), b"200\n");
    let config = Config { target_host: "neverssl.com".to_string(), target_port: 80 };
    let mut proxy = CachingProxy::new(config, cache);
    assert!(proxy.call(request("GET", "/a", None, &[])).is_none());
    assert!(CachingProxy::replay(b"200\n").is_none());
}

#[test]
fn reads_the_cache_only_where_it_may() {
    let mut cache = MemCache::new(2);
    cache.store_key("k".to_string(), b"content");
    let config = Config { target_host: "neverssl.com".to_string(), target_port: 80 };
    let mut proxy = CachingProxy::new(config, cache);
    assert_eq!(proxy.read_cache(&OPEN, "k"), Some(b"content".to_vec()));
    assert_eq!(proxy.read_cache(&OPEN, "other"), None);
    let shut = RequestCacheControl { read_cache: false, write_cache: true };
    assert_eq!(proxy.read_cache(&shut, "k"), None);
}

/// A map takes a static name of more than 64 bytes unchecked.
const UNCHECKED: &str = "a name with spaces, which is no name, and is longer than sixty-four bytes";

#[test]
fn reads_values_that_no_check_has_seen() {
    let mut map = HeaderMap::new();
    map.insert(UNCHECKED, HeaderValue::from_static("v"));
    let name = map.keys().next().unwrap().clone();
    let mut head = ResponseHead { status: 200, headers: HeaderMap::new() };
    head.headers.insert("content-length", HeaderValue::from(name.clone()));
    assert!(CachingProxy::receive(&OPEN, "k".to_string(), head).is_none());
    let mut req = request("GET", "/", None, &[]);
    req.headers.insert("cache-control", HeaderValue::from(name));
    assert!(matches!(proxy().configure_caching(&req), Err(CacheControlError::Request(_))));
}

#[test]
fn stores_names_that_no_check_has_seen() {
    let mut head = ResponseHead { status: 200, headers: HeaderMap::new() };
    head.headers.insert(UNCHECKED, HeaderValue::from_static("v"));
    let (_, mut tee) = watched(received(CachingProxy::receive(&OPEN, "k".to_string(), head)));
    let mut cache = MemCache::new(1);
    tee.finish(true, &mut cache);
    assert!(CachingProxy::replay(&cache.get_key("k").unwrap()).is_none());
}

#[test]
fn takes_as_many_names_as_a_map_does() {
    let mut full = HeaderMap::new();
    for i in 0..6553 {
        let name = HeaderName::from_bytes(format!("n{}", i).as_bytes()).unwrap();
        full.insert(name, HeaderValue::from_static("v"));
    }
    let head = ResponseHead { status: 200, headers: full.clone() };
    assert!(CachingProxy::receive(&OPEN, "k".to_string(), head).is_some());
    for i in 6553..40000 {
        let name = HeaderName::from_bytes(format!("n{}", i).as_bytes()).unwrap();
        if full.try_insert(name, HeaderValue::from_static("v")).is_err() {
            break;
        }
    }
    let head = ResponseHead { status: 200, headers: full.clone() };
    assert!(CachingProxy::receive(&OPEN, "k".to_string(), head).is_none());
    let mut req = request("GET", "/a", None, &[]);
    req.headers = full;
    assert!(proxy().call(req).is_none());
}
