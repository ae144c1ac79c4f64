//! Wire codec, header map and response builder behavior.

use localhost::codec::RequestParser;
use localhost::headers::Headers;
use localhost::method::Method;
use localhost::request::{url_decode, Request};
use localhost::response::{mime_type, Response};
use localhost::status::StatusCode;

#[test]
fn headers_store_lowercased_and_ordered() {
    let mut h = Headers::new();
    h.add(b"X-One", b"a");
    h.add(b"x-one", b"b");
    h.set(b"Host", b"example");
    assert_eq!(h.get(b"x-ONE"), Some(b"a".to_vec()));
    assert_eq!(h.get_all(b"X-One"), Some(vec![b"a".to_vec(), b"b".to_vec()]));
    assert_eq!(h.host(), Some(b"example".to_vec()));
    assert!(h.contains(b"HOST"));
    h.remove(b"x-one");
    assert_eq!(h.get(b"x-one"), None);
}

#[test]
fn headers_predicates() {
    let mut h = Headers::new();
    assert!(h.keep_alive());
    h.set(b"Connection", b"CLOSE");
    assert!(!h.keep_alive());
    h.set(b"Connection", b"keep-alive");
    assert!(h.keep_alive());
    h.set(b"Transfer-Encoding", b"gzip, Chunked");
    assert!(h.is_chunked());
    h.set(b"Content-Length", b"42");
    assert_eq!(h.content_length(), Some(42));
    h.set(b"Content-Length", b"nope");
    assert_eq!(h.content_length(), None);
    h.set(b"Content-Length", b"99999999999999999999999999");
    assert_eq!(h.content_length(), None);
}

#[test]
fn header_serialization_lines() {
    let mut h = Headers::new();
    h.add(b"A", b"1");
    h.add(b"B", b"2");
    h.add(b"A", b"3");
    assert_eq!(h.to_http_string(), b"a: 1\r\na: 3\r\nb: 2\r\n".to_vec());
}

#[test]
fn method_parsing_is_case_insensitive() {
    assert_eq!(Method::from_bytes(b"get"), Some(Method::Get));
    assert_eq!(Method::from_bytes(b"PoSt"), Some(Method::Post));
    assert_eq!(Method::from_bytes(b"OPTIONS"), Some(Method::Options));
    assert_eq!(Method::from_bytes(b"BREW"), None);
    assert_eq!(Method::Get.as_str(), "GET");
}

#[test]
fn status_codes_and_reasons() {
    assert_eq!(StatusCode::Okay.code(), 200);
    assert_eq!(StatusCode::Okay.reason(), "OK");
    assert_eq!(StatusCode::from_code(404), Some(StatusCode::NotFound));
    assert_eq!(StatusCode::from_code(999), None);
}

#[test]
fn mime_table_by_extension() {
    assert_eq!(mime_type(b"index.html"), "text/html; charset=utf-8");
    assert_eq!(mime_type(b"a.tar.GZ"), "application/octet-stream");
    assert_eq!(mime_type(b"photo.JPG"), "image/jpeg");
    assert_eq!(mime_type(b"noext"), "application/octet-stream");
    assert_eq!(mime_type(b"style.css"), "text/css; charset=utf-8");
}

#[test]
fn url_decoding() {
    assert_eq!(url_decode(b"a%20b+c"), b"a b c".to_vec());
    assert_eq!(url_decode(b"%41%6233"), b"Ab33".to_vec());
    assert_eq!(url_decode(b"bad%zzend"), b"bad%zzend".to_vec());
    assert_eq!(url_decode(b"cut%2"), b"cut%2".to_vec());
}

#[test]
fn request_target_splits_query() {
    let r = Request::new(Method::Get, b"/p?a=1&a=2&flag&x=%2F");
    assert_eq!(r.path, b"/p".to_vec());
    assert_eq!(r.query_param(b"a"), Some(b"2".to_vec()));
    assert_eq!(r.query_param(b"flag"), Some(b"".to_vec()));
    assert_eq!(r.query_param(b"x"), Some(b"/".to_vec()));
    assert_eq!(r.query_param(b"missing"), None);
}

#[test]
fn completeness_detection() {
    assert!(!RequestParser::has_complete_headers(b"GET / HTTP/1.1\r\n"));
    assert!(RequestParser::has_complete_headers(b"GET / HTTP/1.1\r\n\r\n"));
    assert!(RequestParser::is_complete(b"GET / HTTP/1.1\r\nHost: x\r\n\r\n"));
    let with_body = b"POST / HTTP/1.1\r\nContent-Length: 5\r\n\r\nhel";
    assert!(!RequestParser::is_complete(with_body));
    let full = b"POST / HTTP/1.1\r\nContent-Length: 5\r\n\r\nhello";
    assert!(RequestParser::is_complete(full));
    assert_eq!(RequestParser::get_content_length(full), Some(5));
}

#[test]
fn chunked_completeness_and_decoding() {
    let req = b"POST /up HTTP/1.1\r\nTransfer-Encoding: chunked\r\n\r\n5\r\nhello\r\n0\r\n\r\n";
    assert!(RequestParser::is_chunked(req));
    assert!(RequestParser::is_complete(req));
    let parsed = RequestParser::parse(req).unwrap();
    assert_eq!(RequestParser::decode_chunked(&parsed.body).unwrap(), b"hello".to_vec());
    assert!(RequestParser::decode_chunked(b"zz\r\nhello").is_err());
    let two = b"3\r\nabc\r\n2\r\nde\r\n0\r\n\r\n";
    assert_eq!(RequestParser::decode_chunked(two).unwrap(), b"abcde".to_vec());
}

#[test]
fn parse_request_line_and_headers() {
    let data = b"GET /a/b?k=v HTTP/1.1\r\nHost: here\r\nX-Tag: one\r\nX-Tag: two\r\n\r\nrest";
    let r = RequestParser::parse(data).unwrap();
    assert_eq!(r.method, Method::Get);
    assert_eq!(r.path, b"/a/b".to_vec());
    assert_eq!(r.version, b"HTTP/1.1".to_vec());
    assert_eq!(r.query_param(b"k"), Some(b"v".to_vec()));
    assert_eq!(r.headers.get(b"host"), Some(b"here".to_vec()));
    assert_eq!(
        r.headers.get_all(b"x-tag"),
        Some(vec![b"one".to_vec(), b"two".to_vec()])
    );
    assert_eq!(r.body, b"rest".to_vec());
}

#[test]
fn parse_rejects_bad_requests() {
    assert!(RequestParser::parse(b"nonsense").is_err());
    assert!(RequestParser::parse(b"ONLYME /x HTTP/1.1\r\n\r\n").is_err());
    assert!(RequestParser::parse(b"GET\r\n\r\n").is_err());
    assert!(RequestParser::parse(b"GET /x\r\n\r\n").is_err());
    let bad_utf8 = b"GET /\xff\xfe HTTP/1.1\r\n\r\n";
    assert!(RequestParser::parse(bad_utf8).is_err());
}

#[test]
fn response_to_bytes_layout() {
    let r = Response::ok().html("hello");
    let bytes = r.to_bytes();
    let text = String::from_utf8(bytes.clone()).unwrap();
    assert!(text.starts_with("HTTP/1.1 200 OK\r\n"));
    assert!(text.contains("content-type: text/html; charset=utf-8\r\n"));
    assert!(text.contains("content-length: 5\r\n"));
    assert!(text.ends_with("\r\n\r\nhello"));
    let sep = bytes.windows(4).filter(|w| w == b"\r\n\r\n").count();
    assert_eq!(sep, 1);
}

#[test]
fn response_content_length_matches_body() {
    let r = Response::ok().body(vec![1, 2, 3, 4]);
    assert_eq!(r.headers.get(b"content-length"), Some(b"4".to_vec()));
    assert_eq!(r.body, vec![1, 2, 3, 4]);
    let r = Response::ok().connection(b"close");
    assert!(!r.headers.keep_alive());
}

#[test]
fn serialize_then_parse_round_trip() {
    let data = b"PUT /thing HTTP/1.1\r\nhost: a\r\nx-k: v1\r\nx-k: v2\r\n\r\nbody!";
    let r = RequestParser::parse(data).unwrap();
    let wire = localhost::codec::RequestParser::parse(
        localhost::codec::serialize_request(&r).as_slice(),
    )
    .unwrap();
    assert_eq!(wire.method, r.method);
    assert_eq!(wire.path, r.path);
    assert_eq!(wire.version, r.version);
    assert_eq!(wire.body, r.body);
    assert_eq!(wire.headers.get(b"host"), r.headers.get(b"host"));
    assert_eq!(wire.headers.get_all(b"x-k"), r.headers.get_all(b"x-k"));
}

#[test]
fn serialize_round_trips_queries() {
    let data = b"GET /search?q=two+words&lang=fr HTTP/1.1\r\nhost: a\r\n\r\n";
    let r = RequestParser::parse(data).unwrap();
    assert_eq!(r.query_param(b"q"), Some(b"two words".to_vec()));
    let wire = localhost::codec::serialize_request(&r);
    let text = String::from_utf8(wire.clone()).unwrap();
    assert!(text.starts_with("GET /search?q=two%20words&lang=fr HTTP/1.1\r\n"));
    let back = RequestParser::parse(&wire).unwrap();
    assert_eq!(back.path, r.path);
    assert_eq!(back.query_param(b"q"), Some(b"two words".to_vec()));
    assert_eq!(back.query_param(b"lang"), Some(b"fr".to_vec()));
}

#[test]
fn url_encoding_escapes_reserved_bytes() {
    assert_eq!(localhost::request::url_encode(b"abc-123_~."), b"abc-123_~.".to_vec());
    assert_eq!(localhost::request::url_encode(b"a b&c=d"), b"a%20b%26c%3Dd".to_vec());
    assert_eq!(localhost::request::url_encode(b"%"), b"%25".to_vec());
}

#[test]
fn body_str_requires_utf8() {
    let mut r = Request::new(Method::Post, b"/");
    r.body = b"ok text".to_vec();
    assert_eq!(r.body_str(), Some(b"ok text".to_vec()));
    r.body = vec![0xff, 0xfe];
    assert_eq!(r.body_str(), None);
}

#[test]
fn cookie_header_lookup() {
    let data = b"GET / HTTP/1.1\r\nCookie: sid=abc; theme=dark\r\n\r\n";
    let r = RequestParser::parse(data).unwrap();
    assert_eq!(r.cookie(b"sid"), Some(b"abc".to_vec()));
    assert_eq!(r.cookie(b"theme"), Some(b"dark".to_vec()));
    assert_eq!(r.cookie(b"nope"), None);
}
