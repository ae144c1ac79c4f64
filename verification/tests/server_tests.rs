//! The connection state machine, the poller model, the configuration
//! parser, sessions and cookies, and directory helpers.

use localhost::config_parser::ConfigParser;
use localhost::connection::{Connection, ConnectionState};
use localhost::cookie::{parse_cookies, Cookie, SameSite};
use localhost::directory::{sort_entries, DirEntryInfo, DirectoryListing};
use localhost::method::Method;
use localhost::poller::{EventType, Poller};
use localhost::response::Response;
use localhost::session::{Session, SessionStore};

#[test]
fn keep_alive_round_trip_resets_buffers() {
    let mut c = Connection::new(8080, 100);
    assert_eq!(c.state, ConnectionState::Reading);
    c.absorb_read(b"GET / HTTP/1.1\r\nHost: x\r\n\r\n", 101);
    assert!(c.has_complete_request());
    c.note_processing();
    let resp = Response::ok().html("hi");
    c.set_response(&resp);
    assert_eq!(c.state, ConnectionState::Writing);
    assert!(c.keep_alive);
    let total = c.write_buffer.len();
    c.advance_write(total, 102);
    assert_eq!(c.state, ConnectionState::Reading);
    assert!(c.read_buffer.is_empty());
    assert!(c.write_buffer.is_empty());
    assert_eq!(c.bytes_written, 0);
}

#[test]
fn close_connection_after_final_response() {
    let mut c = Connection::new(8080, 100);
    let resp = Response::ok().html("x").connection(b"close");
    c.set_response(&resp);
    assert!(!c.keep_alive);
    let total = c.write_buffer.len();
    let half = total / 2;
    c.advance_write(half, 101);
    assert_eq!(c.state, ConnectionState::Writing);
    assert_eq!(c.bytes_written, half);
    assert!(!c.is_write_complete());
    c.advance_write(total - half, 102);
    assert_eq!(c.state, ConnectionState::Closed);
    assert!(c.is_write_complete());
}

#[test]
fn connection_timeouts_and_errors() {
    let mut c = Connection::new(8080, 100);
    assert!(!c.is_timed_out(150, 60));
    assert!(c.is_timed_out(161, 60));
    c.note_closed();
    assert_eq!(c.state, ConnectionState::Closed);
    let mut c2 = Connection::new(1, 0);
    c2.set_response(&Response::ok());
    c2.advance_write(0, 1);
    assert_eq!(c2.state, ConnectionState::Closed);
}

#[test]
fn unregistered_fd_never_reported() {
    let mut p = Poller::new().unwrap();
    p.register(3, EventType::Read).unwrap();
    p.register(4, EventType::Write).unwrap();
    p.register(5, EventType::ReadWrite).unwrap();
    p.modify(4, EventType::ReadWrite).unwrap();
    assert!(p.modify(99, EventType::Read).is_err());
    p.unregister(4).unwrap();
    let events = p.snapshot_events();
    assert_eq!(events.len(), 2);
    assert!(events.iter().all(|e| e.fd != 4));
    let three = events.iter().find(|e| e.fd == 3).unwrap();
    assert!(three.readable && !three.writable);
    let five = events.iter().find(|e| e.fd == 5).unwrap();
    assert!(five.readable && five.writable);
}

#[test]
fn config_parsing() {
    let text = b"server {\n    listen 8081;\n    server_name demo;\n    host 0.0.0.0;\n    root /srv/www;\n    client_max_body_size 2M;\n    error_page 404 /404.html;\n    location /api {\n        methods POST DELETE;\n        autoindex on;\n        upload_dir /srv/up;\n    }\n    location /old {\n        redirect /new;\n    }\n}\n";
    let config = ConfigParser::parse_string(text).unwrap();
    assert_eq!(config.servers.len(), 1);
    let s = &config.servers[0];
    assert_eq!(s.server_name, b"demo".to_vec());
    assert_eq!(s.host, b"0.0.0.0".to_vec());
    assert_eq!(s.ports, vec![8081]);
    assert_eq!(s.root, b"/srv/www".to_vec());
    assert_eq!(s.client_max_body_size, 2 * 1024 * 1024);
    assert_eq!(s.get_error_page(404), Some(b"/404.html".to_vec()));
    assert_eq!(s.routes.len(), 2);
    let api = &s.routes[0];
    assert_eq!(api.path, b"/api".to_vec());
    assert_eq!(api.methods, vec![Method::Post, Method::Delete]);
    assert!(api.autoindex);
    assert_eq!(api.upload_dir, Some(b"/srv/up".to_vec()));
    assert_eq!(api.root, Some(b"/srv/www".to_vec()));
    let old = &s.routes[1];
    assert_eq!(old.redirect, Some((b"/new".to_vec(), true)));
    assert_eq!(old.methods, vec![Method::Get]);
}

#[test]
fn config_parsing_defaults() {
    let config = ConfigParser::parse_string(b"").unwrap();
    assert_eq!(config.servers.len(), 1);
    assert_eq!(config.servers[0].ports, vec![8080]);
    let config = ConfigParser::parse_string(b"server {\n}\n").unwrap();
    assert_eq!(config.servers[0].routes.len(), 1);
    assert_eq!(config.servers[0].routes[0].path, b"/".to_vec());
    assert!(ConfigParser::parse_string(b"server nope").is_err());
}

#[test]
fn listen_replaces_the_default_port() {
    let config = ConfigParser::parse_string(b"server {\n    listen 9000;\n}\n").unwrap();
    assert_eq!(config.servers[0].ports, vec![9000]);
    let config = ConfigParser::parse_string(b"server {\n    listen 8080;\n    listen 8081;\n}\n")
        .unwrap();
    assert_eq!(config.servers[0].ports, vec![8080, 8081]);
    let config = ConfigParser::parse_string(b"server {\n    listen 9000;\n    listen 9000;\n}\n")
        .unwrap();
    assert_eq!(config.servers[0].ports, vec![9000]);
}

#[test]
fn size_suffixes() {
    assert_eq!(ConfigParser::parse_size(b"10").unwrap(), 10);
    assert_eq!(ConfigParser::parse_size(b"4K").unwrap(), 4096);
    assert_eq!(ConfigParser::parse_size(b"3m").unwrap(), 3 * 1024 * 1024);
    assert_eq!(ConfigParser::parse_size(b"1G").unwrap(), 1024 * 1024 * 1024);
    assert_eq!(ConfigParser::parse_size(b"").unwrap(), 0);
    assert!(ConfigParser::parse_size(b"wat").is_err());
    assert!(ConfigParser::parse_size(b"999999999999999999999G").is_err());
}

#[test]
fn cookie_serialization() {
    let c = Cookie::new(b"sid", b"abc");
    assert_eq!(
        c.to_header_value(),
        b"sid=abc; Path=/; HttpOnly; SameSite=Lax".to_vec()
    );
    let c = Cookie::persistent(b"k", b"v", 60)
        .domain(b"example.test")
        .secure(true)
        .same_site(SameSite::Strict);
    assert_eq!(
        c.to_header_value(),
        b"k=v; Path=/; Domain=example.test; Max-Age=60; Secure; HttpOnly; SameSite=Strict".to_vec()
    );
    let c = Cookie::delete(b"k");
    assert_eq!(c.max_age, Some(0));
}

#[test]
fn cookie_parsing() {
    let m = parse_cookies(b"a=1; b=2 ; a=3");
    assert_eq!(m.len(), 2);
    assert_eq!(m[0], (b"a".to_vec(), b"3".to_vec()));
    assert_eq!(m[1], (b"b".to_vec(), b"2".to_vec()));
}

#[test]
fn session_data_and_expiry() {
    let mut s = Session::new(b"id1", 100);
    s.set(b"user", b"ada", 101);
    assert_eq!(s.get(b"user"), Some(b"ada".to_vec()));
    s.set(b"user", b"bob", 102);
    assert_eq!(s.get(b"user"), Some(b"bob".to_vec()));
    assert_eq!(s.remove(b"user", 103), Some(b"bob".to_vec()));
    assert_eq!(s.get(b"user"), None);
    assert!(!s.is_expired(103 + 3600));
    assert!(s.is_expired(104 + 3600));
}

#[test]
fn session_store_lifecycle() {
    let mut store = SessionStore::with_expiry(10);
    let id = store.create(42, 100);
    assert_eq!(store.count(), 1);
    let idx = store.get(&id, 105).unwrap();
    assert_eq!(store.sessions[idx].0, id);
    assert!(store.get(b"missing", 105).is_none());
    assert!(store.get(&id, 200).is_none());
    assert_eq!(store.count(), 0);
    let idx = store.get_or_create(None, 43, 300);
    assert!(idx < store.count());
    store.cleanup_expired(1000);
    assert_eq!(store.count(), 0);
    let id2 = store.create(44, 2000);
    store.destroy(&id2);
    assert_eq!(store.count(), 0);
}

#[test]
fn generated_ids_are_hex_of_clock() {
    let id = SessionStore::generate_id(255);
    assert_eq!(id, b"ff5d90df98693".to_vec());
}

#[test]
fn human_readable_sizes() {
    assert_eq!(DirectoryListing::format_size(512), b"512 B".to_vec());
    assert_eq!(DirectoryListing::format_size(1536), b"1.5 KB".to_vec());
    assert_eq!(DirectoryListing::format_size(1048576), b"1.0 MB".to_vec());
    assert_eq!(DirectoryListing::format_size(3 * 1024 * 1024 * 1024 / 2), b"1.5 GB".to_vec());
}

#[test]
fn parent_paths() {
    assert_eq!(DirectoryListing::parent_path(b"/a/b/"), b"/a".to_vec());
    assert_eq!(DirectoryListing::parent_path(b"/a"), b"/".to_vec());
    assert_eq!(DirectoryListing::parent_path(b"/"), b"/".to_vec());
}

#[test]
fn listing_page_rows() {
    let entries = vec![
        DirEntryInfo { name: b"docs".to_vec(), is_dir: true, size: None },
        DirEntryInfo { name: b"a.txt".to_vec(), is_dir: false, size: Some(2048) },
    ];
    let resp = DirectoryListing::generate(b"/files", entries);
    let body = String::from_utf8(resp.body.clone()).unwrap();
    assert!(body.starts_with("<!DOCTYPE html>"));
    assert!(body.contains("<title>Index of /files</title>"));
    assert!(body.contains("<a href=\"/\">..</a>"));
    assert!(body.contains(
        "<tr><td class=\"dir\"><a href=\"/files/docs\">docs/</a></td><td class=\"size\">-</td><td>Directory</td></tr>"
    ));
    assert!(body.contains(
        "<tr><td><a href=\"/files/a.txt\">a.txt</a></td><td class=\"size\">2.0 KB</td><td>File</td></tr>"
    ));
    assert!(body.find("docs/").unwrap() < body.find("a.txt").unwrap());
    assert!(body.ends_with("</body>\n</html>"));
}

#[test]
fn listing_sorts_directories_first() {
    let entries = vec![
        DirEntryInfo { name: b"zeta.txt".to_vec(), is_dir: false, size: Some(3) },
        DirEntryInfo { name: b"beta".to_vec(), is_dir: true, size: None },
        DirEntryInfo { name: b"alpha.txt".to_vec(), is_dir: false, size: Some(1) },
        DirEntryInfo { name: b"acme".to_vec(), is_dir: true, size: None },
    ];
    let sorted = sort_entries(entries);
    let names: Vec<Vec<u8>> = sorted.iter().map(|e| e.name.clone()).collect();
    assert_eq!(
        names,
        vec![b"acme".to_vec(), b"beta".to_vec(), b"alpha.txt".to_vec(), b"zeta.txt".to_vec()]
    );
}
