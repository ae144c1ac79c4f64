//! Routing scenarios: static dispatch, errors, the method gate, and
//! redirects.

use localhost::codec::RequestParser;
use localhost::method::Method;
use localhost::route::Route;
use localhost::router::{delete_ok_response, error_page_response, error_response, Dispatch, Handler};
use localhost::server_config::{Config, ServerConfig};
use localhost::static_files::{FileInfo, StaticFiles, StaticStep};
use localhost::status::StatusCode;

fn server_with_root(root: &[u8]) -> ServerConfig {
    let mut s = ServerConfig::new();
    s.root = root.to_vec();
    let mut route = Route::new(b"/");
    route.methods = vec![Method::Get, Method::Post, Method::Delete, Method::Head];
    s.routes = vec![route];
    s
}

fn handler() -> Handler {
    Handler::new(Config::new())
}

#[test]
fn get_static_resolves_under_root() {
    let server = server_with_root(b"./www");
    let req = RequestParser::parse(b"GET /index.html HTTP/1.1\r\nHost: x\r\n\r\n").unwrap();
    match handler().handle(&req, &server) {
        Dispatch::ServeStatic { fs_path, is_head, .. } => {
            assert_eq!(fs_path, b"./www/index.html".to_vec());
            assert!(!is_head);
        },
        _ => panic!("expected a static dispatch"),
    }
    let resp = StaticFiles::file_response(b"./www/index.html", b"hello".to_vec());
    let text = String::from_utf8(resp.to_bytes()).unwrap();
    assert!(text.starts_with("HTTP/1.1 200 OK\r\n"));
    assert!(text.contains("content-type: text/html; charset=utf-8\r\n"));
    assert!(text.contains("content-length: 5\r\n"));
    assert!(text.ends_with("hello"));
}

#[test]
fn missing_file_gets_builtin_error_page() {
    let resp = error_response(404);
    assert_eq!(resp.status, StatusCode::NotFound);
    let body = String::from_utf8(resp.body.clone()).unwrap();
    assert_eq!(
        body,
        "<!DOCTYPE html>\n<html>\n<head><title>404 Not Found</title></head>\n<body>\n<h1>404 Not Found</h1>\n</body>\n</html>"
    );
    let page = error_page_response(404, b"err/404.html", b"custom page".to_vec());
    assert_eq!(page.status, StatusCode::NotFound);
    assert_eq!(page.body, b"custom page".to_vec());
}

#[test]
fn method_gate_yields_405() {
    let mut server = server_with_root(b"./www");
    let mut api = Route::new(b"/api");
    api.methods = vec![Method::Post];
    server.routes.push(api);
    let req = RequestParser::parse(b"GET /api HTTP/1.1\r\nHost: x\r\n\r\n").unwrap();
    match handler().handle(&req, &server) {
        Dispatch::Error { code } => assert_eq!(code, 405),
        _ => panic!("expected an error dispatch"),
    }
    let resp = error_response(405);
    assert_eq!(resp.status.code(), 405);
}

#[test]
fn redirect_route_yields_301() {
    let mut server = server_with_root(b"./www");
    let mut old = Route::new(b"/old");
    old.redirect = Some((b"/new".to_vec(), true));
    server.routes.push(old);
    let req = RequestParser::parse(b"GET /old HTTP/1.1\r\nHost: x\r\n\r\n").unwrap();
    let (location, permanent) = match handler().handle(&req, &server) {
        Dispatch::Redirect { location, permanent } => (location, permanent),
        _ => panic!("expected a redirect dispatch"),
    };
    let resp = localhost::redirect::Redirect::to(&location, permanent);
    let text = String::from_utf8(resp.to_bytes()).unwrap();
    assert!(text.starts_with("HTTP/1.1 301 Moved Permanently\r\n"));
    assert!(text.contains("location: /new\r\n"));
}

#[test]
fn redirect_builders() {
    let r = localhost::redirect::Redirect::temporary(b"/t");
    assert_eq!(r.status, StatusCode::Found);
    let r = localhost::redirect::Redirect::temporary_preserve_method(b"/t");
    assert_eq!(r.status.code(), 307);
    let r = localhost::redirect::Redirect::permanent_preserve_method(b"/t");
    assert_eq!(r.status.code(), 308);
    assert_eq!(r.headers.get(b"location"), Some(b"/t".to_vec()));
}

#[test]
fn traversal_is_rejected_with_403() {
    let server = server_with_root(b"./www");
    let req = RequestParser::parse(b"GET /../secret HTTP/1.1\r\nHost: x\r\n\r\n").unwrap();
    match handler().handle(&req, &server) {
        Dispatch::Error { code } => assert_eq!(code, 403),
        _ => panic!("expected an error dispatch"),
    }
    assert!(!StaticFiles::is_safe_path(b"./www/../x"));
    assert!(!StaticFiles::is_safe_path(b"./www/a\0b"));
    assert!(StaticFiles::is_safe_path(b"./www/fine.txt"));
}

#[test]
fn longest_prefix_wins() {
    let mut server = server_with_root(b"./www");
    let mut api = Route::new(b"/api");
    api.methods = vec![Method::Get];
    let mut apiv = Route::new(b"/api/v2");
    apiv.methods = vec![Method::Get];
    apiv.root = Some(b"/srv/v2".to_vec());
    server.routes.push(api);
    server.routes.push(apiv);
    let found = server.find_route(b"/api/v2/data").unwrap();
    assert_eq!(found.path, b"/api/v2".to_vec());
    let found = server.find_route(b"/api/other").unwrap();
    assert_eq!(found.path, b"/api".to_vec());
    let found = server.find_route(b"/elsewhere").unwrap();
    assert_eq!(found.path, b"/".to_vec());
}

#[test]
fn route_resolution() {
    let mut r = Route::new(b"/kapouet");
    r.root = Some(b"/tmp/www".to_vec());
    assert_eq!(
        r.resolve_path(b"/kapouet/pouic/toto"),
        Some(b"/tmp/www/pouic/toto".to_vec())
    );
    assert_eq!(r.resolve_path_with_root(b"/kapouet", b"/srv"), b"/tmp/www".to_vec());
    let plain = Route::new(b"/x");
    assert_eq!(plain.resolve_path(b"/x/y"), None);
    assert_eq!(plain.resolve_path_with_root(b"/x/y", b"/srv"), b"/srv/x/y".to_vec());
}

#[test]
fn cgi_extension_dispatch() {
    let mut server = server_with_root(b"./www");
    let mut route = Route::new(b"/");
    route.methods = vec![Method::Get];
    route.cgi = vec![(b".py".to_vec(), b"/usr/bin/python3".to_vec())];
    server.routes = vec![route];
    let req = RequestParser::parse(b"GET /app.py HTTP/1.1\r\nHost: x\r\n\r\n").unwrap();
    match handler().handle(&req, &server) {
        Dispatch::Cgi { script_path, interpreter } => {
            assert_eq!(script_path, b"./www/app.py".to_vec());
            assert_eq!(interpreter, b"/usr/bin/python3".to_vec());
        },
        _ => panic!("expected a gateway dispatch"),
    }
}

#[test]
fn post_without_upload_dir_is_403() {
    let server = server_with_root(b"./www");
    let req =
        RequestParser::parse(b"POST /up HTTP/1.1\r\nHost: x\r\nContent-Length: 0\r\n\r\n").unwrap();
    match handler().handle(&req, &server) {
        Dispatch::Error { code } => assert_eq!(code, 403),
        _ => panic!("expected an error dispatch"),
    }
}

#[test]
fn delete_dispatch_and_response() {
    let mut server = server_with_root(b"./www");
    server.routes[0].methods = vec![Method::Delete];
    let req = RequestParser::parse(b"DELETE /gone.txt HTTP/1.1\r\nHost: x\r\n\r\n").unwrap();
    match handler().handle(&req, &server) {
        Dispatch::Delete { fs_path } => assert_eq!(fs_path, b"./www/gone.txt".to_vec()),
        _ => panic!("expected a delete dispatch"),
    }
    let resp = delete_ok_response();
    assert_eq!(
        resp.body,
        b"{\"status\":\"ok\",\"message\":\"File deleted\"}".to_vec()
    );
}

#[test]
fn static_plan_decides_from_probes() {
    let dir = FileInfo { size: 0, is_dir: true, is_file: false };
    let file = FileInfo { size: 5, is_dir: false, is_file: true };
    let index = b"index.html".to_vec();
    match StaticFiles::static_plan(b"./www", false, Some(&index), Some(&dir), Some(&file)) {
        StaticStep::ServeIndex { fs_path } => assert_eq!(fs_path, b"./www/index.html".to_vec()),
        _ => panic!("expected the index file"),
    }
    assert!(matches!(
        StaticFiles::static_plan(b"./www", true, Some(&index), Some(&dir), None),
        StaticStep::Listing
    ));
    assert!(matches!(
        StaticFiles::static_plan(b"./www", false, Some(&index), Some(&dir), None),
        StaticStep::Error { code: 403 }
    ));
    assert!(matches!(
        StaticFiles::static_plan(b"./www/a.txt", false, None, Some(&file), None),
        StaticStep::ServeFile
    ));
    assert!(matches!(
        StaticFiles::static_plan(b"./www/missing", true, None, None, None),
        StaticStep::Error { code: 404 }
    ));
}

#[test]
fn delete_plan_decides_from_probe() {
    let dir = FileInfo { size: 0, is_dir: true, is_file: false };
    let file = FileInfo { size: 5, is_dir: false, is_file: true };
    assert_eq!(StaticFiles::delete_plan(None), 404);
    assert_eq!(StaticFiles::delete_plan(Some(&dir)), 403);
    assert_eq!(StaticFiles::delete_plan(Some(&file)), 0);
}

#[test]
fn server_selection_by_host_and_port() {
    let mut a = ServerConfig::new();
    a.server_name = b"alpha".to_vec();
    a.ports = vec![80];
    let mut b = ServerConfig::new();
    b.server_name = b"beta".to_vec();
    b.ports = vec![80];
    let config = Config { servers: vec![a, b] };
    let s = config.find_server_by_host(b"beta:80", 80).unwrap();
    assert_eq!(s.server_name, b"beta".to_vec());
    let s = config.find_server_by_host(b"other", 80).unwrap();
    assert_eq!(s.server_name, b"alpha".to_vec());
    assert!(config.find_server_by_host(b"beta", 81).is_none());
    let s = config.find_server(b"", 80, Some(b"beta")).unwrap();
    assert_eq!(s.server_name, b"beta".to_vec());
}

#[test]
fn config_validation() {
    let config = Config { servers: vec![] };
    assert!(config.validate().is_err());
    let mut a = ServerConfig::new();
    a.server_name = b"one".to_vec();
    let mut b = ServerConfig::new();
    b.server_name = b"one".to_vec();
    let dup = Config { servers: vec![a.clone(), b] };
    assert!(dup.validate().is_err());
    let mut c = ServerConfig::new();
    c.server_name = b"two".to_vec();
    let vhost = Config { servers: vec![a.clone(), c] };
    assert!(vhost.validate().is_ok());
    let solo = Config { servers: vec![a] };
    assert!(solo.validate().is_ok());
}

#[test]
fn listen_addresses_deduplicate() {
    let mut a = ServerConfig::new();
    a.ports = vec![80, 81];
    let mut b = ServerConfig::new();
    b.ports = vec![81, 82];
    let config = Config { servers: vec![a, b] };
    let addrs = config.get_listen_addresses();
    let ports: Vec<u16> = addrs.iter().map(|x| x.1).collect();
    assert_eq!(ports, vec![80, 81, 82]);
}
