use crap_cache::entry::{
    bytes_to_parts, response_to_bytes, try_bytes_to_parts, try_response_to_bytes, ResponseHead,
};
use hyper::header::{HeaderName, HeaderValue};
use hyper::HeaderMap;

fn headers(list: &[(&'static str, &str)]) -> HeaderMap<HeaderValue> {
    let mut map = HeaderMap::new();
    for (name, value) in list {
        map.append(*name, HeaderValue::from_str(value).unwrap());
    }
    map
}

fn head(status: u16, list: &[(&'static str, &str)]) -> ResponseHead {
    ResponseHead { status, headers: headers(list) }
}

fn listed(map: &HeaderMap<HeaderValue>) -> Vec<(String, String)> {
    map.iter()
        .map(|(name, value)| (name.to_string(), value.to_str().unwrap().to_string()))
        .collect()
}

fn pair(name: &str, value: &str) -> (String, String) {
    (name.to_string(), value.to_string())
}

#[test]
fn writes_status_fields_and_mark() {
    let head = head(
        200,
        &[
            ("Content-Type", "text/plain"),
            ("Content-Length", "5"),
            ("Connection", "keep-alive"),
            ("ETag", "\"1:2\""),
        ],
    );
    assert_eq!(response_to_bytes(&head), b"200\ncontent-type:text/plain\netag:\"1:2\"\n-\n");
}

#[test]
fn writes_every_value_of_a_name() {
    let head = head(301, &[("Set-Cookie", "a=1"), ("Location", "/x"), ("Set-Cookie", "b=2")]);
    assert_eq!(response_to_bytes(&head), b"301\nset-cookie:a=1\nset-cookie:b=2\nlocation:/x\n-\n");
}

#[test]
fn writes_a_head_without_fields() {
    assert_eq!(response_to_bytes(&head(100, &[])), b"100\n-\n");
    assert_eq!(response_to_bytes(&head(999, &[])), b"999\n-\n");
}

#[test]
fn refuses_a_size_that_is_no_number() {
    for size in ["", "five", "-1", "1, 1", "99999999999999999999999"] {
        assert!(try_response_to_bytes(&head(200, &[("content-length", size)])).is_none());
    }
    assert!(try_response_to_bytes(&head(200, &[("content-length", "+5")])).is_some());
    let mut map = HeaderMap::new();
    map.insert("content-length", HeaderValue::from_bytes(b"5\xff").unwrap());
    assert!(try_response_to_bytes(&ResponseHead { status: 200, headers: map }).is_none());
}

#[test]
fn refuses_a_size_without_room() {
    let most = isize::MAX.to_string();
    assert!(try_response_to_bytes(&head(200, &[("content-length", &most)])).is_none());
}

#[test]
fn looks_at_the_first_size_only() {
    let head = head(200, &[("content-length", "3"), ("content-length", "x")]);
    assert_eq!(response_to_bytes(&head), b"200\n-\n");
}

#[test]
fn reads_what_was_written() {
    let head = head(
        404,
        &[("Server", "a:b"), ("Content-Length", "9"), ("X-Empty", ""), ("X-Tab", "a\tb")],
    );
    let mut bytes = response_to_bytes(&head);
    bytes.extend_from_slice(b"-\nbody:\n-\n");
    let (status, headers, body) = bytes_to_parts(&bytes);
    assert_eq!(status, 404);
    assert_eq!(
        listed(&headers),
        vec![
            pair("x-crap-cache", "hit"),
            pair("server", "a:b"),
            pair("x-empty", ""),
            pair("x-tab", "a\tb"),
        ]
    );
    assert_eq!(body, b"-\nbody:\n-\n");
}

#[test]
fn reads_an_empty_body() {
    let (status, headers, body) = bytes_to_parts(b"204\n-\n");
    assert_eq!(status, 204);
    assert_eq!(listed(&headers), vec![pair("x-crap-cache", "hit")]);
    assert!(body.is_empty());
}

#[test]
fn keeps_the_last_value_of_a_name() {
    let (_, headers, _) = bytes_to_parts(b"200\nset-cookie:a=1\nvary:x\nset-cookie:b=2\n-\n");
    assert_eq!(
        listed(&headers),
        vec![pair("x-crap-cache", "hit"), pair("set-cookie", "b=2"), pair("vary", "x")]
    );
}

#[test]
fn lets_a_recorded_cache_header_win() {
    let (_, headers, _) = bytes_to_parts(b"200\nvary:x\nX-Crap-Cache:other\n-\n");
    assert_eq!(listed(&headers), vec![pair("x-crap-cache", "other"), pair("vary", "x")]);
}

#[test]
fn reads_names_in_lower_case() {
    let (_, headers, _) = bytes_to_parts(b"200\nCONTENT-Type:text/html\n-\nx");
    assert_eq!(headers.get("content-type").unwrap(), "text/html");
}

#[test]
fn reads_values_that_are_not_text() {
    let (_, headers, _) = bytes_to_parts(b"200\nx:\xe4\xff\n-\n");
    assert_eq!(headers.get("x").unwrap().as_bytes(), b"\xe4\xff");
}

#[test]
fn refuses_what_is_no_entry() {
    let broken: Vec<&[u8]> = vec![
        b"",
        b"\n",
        b"-\n",
        b"200",
        b"200\n",
        b"200\n-",
        b"200\nserver:x\n",
        b"200\nserver:x",
        b"20\n-\n",
        b"2000\n-\n",
        b"099\n-\n",
        b"2x0\n-\n",
        b"200\nserver\n-\n",
        b"200\n\n-\n",
        b"200\n:x\n-\n",
        b"200\nser ver:x\n-\n",
        b"200\nser\"ver:x\n-\n",
        b"200\nserver:\x7f\n-\n",
        b"200\nserver:a\rb\n-\n",
    ];
    for bytes in broken {
        assert!(try_bytes_to_parts(bytes).is_none());
    }
}

#[test]
fn writes_one_end_mark() {
    let mut head = head(200, &[("a", "-"), ("-", ""), ("b", "")]);
    head.headers.insert(HeaderName::from_static("q\"-"), HeaderValue::from_static("-"));
    let bytes = response_to_bytes(&head);
    assert_eq!(bytes, b"200\na:-\n-:\nb:\nq\"-:-\n-\n");
    let marks = bytes.split(|byte| *byte == b'\n').filter(|line| *line == b"-").count();
    assert_eq!(marks, 1);
}

#[test]
fn reads_back_no_name_with_a_quote() {
    let mut head = head(200, &[("server", "x")]);
    head.headers.insert(HeaderName::from_static("q\"q"), HeaderValue::from_static("v"));
    assert!(try_bytes_to_parts(&response_to_bytes(&head)).is_none());
    head.headers.remove(HeaderName::from_static("q\"q"));
    assert!(try_bytes_to_parts(&response_to_bytes(&head)).is_some());
}

#[test]
fn replays_distinct_fields_in_their_order() {
    let head = head(404, &[("b", "1"), ("connection", "close"), ("a", "2"), ("c", "3")]);
    let bytes = [response_to_bytes(&head).as_slice(), b"-\nbody"].concat();
    let (status, headers, body) = bytes_to_parts(&bytes);
    assert_eq!(status, 404);
    assert_eq!(
        listed(&headers),
        vec![pair("x-crap-cache", "hit"), pair("b", "1"), pair("a", "2"), pair("c", "3")]
    );
    assert_eq!(body, b"-\nbody");
}

fn entry_of_names(count: usize) -> Vec<u8> {
    let mut entry = b"200\n".to_vec();
    for i in 0..count {
        entry.extend_from_slice(format!("n{}:v\n", i).as_bytes());
    }
    entry.extend_from_slice(b"-\nbody");
    entry
}

#[test]
fn reads_as_many_names_as_a_map_takes() {
    let entry = entry_of_names(6552);
    let (_, headers, body) = try_bytes_to_parts(&entry).unwrap();
    assert_eq!(headers.len(), 6553);
    assert_eq!(body, b"body");
    assert!(try_bytes_to_parts(&entry_of_names(10000)).is_some());
    assert!(try_bytes_to_parts(&entry_of_names(40000)).is_none());
}

#[test]
fn takes_the_name_bytes_that_a_header_name_takes() {
    for byte in 0..=255u8 {
        if byte == b'\n' || byte == b':' {
            continue;
        }
        let entry = [b"200\n".as_slice(), &[b'a', byte, b'b'], b":v\n-\n"].concat();
        let accepted = HeaderName::from_bytes(&[b'a', byte, b'b']);
        match try_bytes_to_parts(&entry) {
            Some((_, headers, _)) => {
                let name = accepted.unwrap();
                assert_eq!(headers.get(name.as_str()).unwrap(), "v");
            }
            None => assert!(accepted.is_err()),
        }
    }
}
