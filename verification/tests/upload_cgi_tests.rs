//! Upload handling and the gateway interface.

use localhost::cgi::CgiExecutor;
use localhost::codec::RequestParser;
use localhost::method::Method;
use localhost::request::Request;
use localhost::status::StatusCode;
use localhost::upload::{
    boundary_of, extract_filename, is_multipart, multipart_files, multipart_result,
    multipart_upload_response, raw_upload_response, upload_filename,
};

#[test]
fn chunked_upload_filename_and_response() {
    let req = b"POST /up HTTP/1.1\r\nTransfer-Encoding: chunked\r\n\r\n5\r\nhello\r\n0\r\n\r\n";
    assert!(RequestParser::is_complete(req));
    let parsed = RequestParser::parse(req).unwrap();
    let body = RequestParser::decode_chunked(&parsed.body).unwrap();
    assert_eq!(body, b"hello".to_vec());
    let name = upload_filename(1234567);
    assert_eq!(name, b"upload_1234567".to_vec());
    let resp = raw_upload_response(&name);
    assert_eq!(resp.status, StatusCode::Okay);
    assert_eq!(
        resp.body,
        b"{\"status\":\"ok\",\"file\":\"upload_1234567\"}".to_vec()
    );
}

#[test]
fn boundary_extraction() {
    assert_eq!(
        boundary_of(b"multipart/form-data; boundary=XYZ"),
        Some(b"XYZ".to_vec())
    );
    assert_eq!(
        boundary_of(b"multipart/form-data; boundary=\"quoted\""),
        Some(b"quoted".to_vec())
    );
    assert_eq!(boundary_of(b"text/plain"), None);
}

#[test]
fn filename_extraction() {
    let part = b"Content-Disposition: form-data; name=\"f\"; filename=\"a.txt\"\r\nX: y\r\n\r\ndata";
    assert_eq!(extract_filename(part), Some(b"a.txt".to_vec()));
    assert_eq!(extract_filename(b"Content-Type: text/plain\r\n\r\nx"), None);
}

#[test]
fn multipart_splitting() {
    let ct = b"multipart/form-data; boundary=AaB03x";
    let body = b"--AaB03x\r\nContent-Disposition: form-data; name=\"file\"; filename=\"hi.txt\"\r\nContent-Type: text/plain\r\n\r\nhello there\r\n--AaB03x--";
    let files = multipart_files(ct, body).unwrap();
    assert_eq!(files.len(), 1);
    assert_eq!(files[0].0, b"hi.txt".to_vec());
    assert_eq!(files[0].1, b"hello there".to_vec());
    let resp = multipart_upload_response(&vec![b"hi.txt".to_vec(), b"b.png".to_vec()]);
    assert_eq!(
        resp.body,
        b"{\"status\":\"ok\",\"files\":[\"hi.txt\", \"b.png\"]}".to_vec()
    );
}

#[test]
fn multipart_selection_and_outcome() {
    assert!(is_multipart(Some(&b"multipart/form-data; boundary=x".to_vec())));
    assert!(!is_multipart(Some(&b"text/plain".to_vec())));
    assert!(!is_multipart(None));
    assert!(multipart_result(&vec![]).is_none());
    let resp = multipart_result(&vec![b"a.txt".to_vec()]).unwrap();
    assert_eq!(resp.body, b"{\"status\":\"ok\",\"files\":[\"a.txt\"]}".to_vec());
}

#[test]
fn cgi_echo_output() {
    let resp = CgiExecutor::parse_cgi_output(b"Content-Type: text/plain\r\n\r\nOK").unwrap();
    assert_eq!(resp.status, StatusCode::Okay);
    assert_eq!(resp.headers.get(b"content-type"), Some(b"text/plain".to_vec()));
    assert_eq!(resp.body, b"OK".to_vec());
    assert_eq!(resp.headers.get(b"content-length"), Some(b"2".to_vec()));
    let text = String::from_utf8(resp.to_bytes()).unwrap();
    assert!(text.starts_with("HTTP/1.1 200 OK\r\n"));
}

#[test]
fn cgi_status_and_location_lines() {
    let resp = CgiExecutor::parse_cgi_output(b"Status: 404 Not Found\r\n\r\ngone").unwrap();
    assert_eq!(resp.status, StatusCode::NotFound);
    let resp = CgiExecutor::parse_cgi_output(b"Location: /next\r\n\r\n").unwrap();
    assert_eq!(resp.status, StatusCode::Found);
    assert_eq!(resp.headers.get(b"location"), Some(b"/next".to_vec()));
    let resp = CgiExecutor::parse_cgi_output(b"no separator at all").unwrap();
    assert_eq!(resp.status, StatusCode::Okay);
    assert_eq!(resp.body, b"no separator at all".to_vec());
    assert_eq!(resp.headers.get(b"content-type"), Some(b"text/html".to_vec()));
    let lf = CgiExecutor::parse_cgi_output(b"Content-Type: text/css\n\nbody").unwrap();
    assert_eq!(lf.headers.get(b"content-type"), Some(b"text/css".to_vec()));
    assert_eq!(lf.body, b"body".to_vec());
}

#[test]
fn cgi_environment() {
    let mut r = Request::new(Method::Post, b"/run.py?a=1&b=2");
    r.headers.add(b"Host", b"srv:8080");
    r.headers.add(b"Content-Type", b"text/plain");
    r.headers.add(b"Content-Length", b"4");
    r.headers.add(b"X-Custom", b"yes");
    r.body = b"data".to_vec();
    let env = CgiExecutor::build_env(&r, b"/www/run.py");
    let get = |k: &[u8]| -> Option<Vec<u8>> {
        env.iter().find(|p| p.0 == k.to_vec()).map(|p| p.1.clone())
    };
    assert_eq!(get(b"REQUEST_METHOD"), Some(b"POST".to_vec()));
    assert_eq!(get(b"SCRIPT_FILENAME"), Some(b"/www/run.py".to_vec()));
    assert_eq!(get(b"SCRIPT_NAME"), Some(b"/run.py".to_vec()));
    assert_eq!(get(b"QUERY_STRING"), Some(b"a=1&b=2".to_vec()));
    assert_eq!(get(b"GATEWAY_INTERFACE"), Some(b"CGI/1.1".to_vec()));
    assert_eq!(get(b"CONTENT_TYPE"), Some(b"text/plain".to_vec()));
    assert_eq!(get(b"CONTENT_LENGTH"), Some(b"4".to_vec()));
    assert_eq!(get(b"HTTP_X_CUSTOM"), Some(b"yes".to_vec()));
    assert_eq!(get(b"HTTP_HOST"), Some(b"srv:8080".to_vec()));
    assert_eq!(get(b"SERVER_NAME"), Some(b"srv".to_vec()));
}

#[test]
fn query_string_serialization() {
    let q = vec![(b"a".to_vec(), b"1".to_vec()), (b"b".to_vec(), b"2".to_vec())];
    assert_eq!(CgiExecutor::build_query_string(&q), b"a=1&b=2".to_vec());
    assert_eq!(CgiExecutor::build_query_string(&vec![]), b"".to_vec());
}
