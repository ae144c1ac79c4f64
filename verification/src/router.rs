//! Request routing: route selection, method gating, redirects, path
//! resolution and safety, and handler selection.  The router decides; the
//! embedding program performs filesystem and process work and maps the
//! outcomes back through the verified response builders.

use vstd::prelude::*;
use vstd::string::StringSliceAdditionalSpecFns;

use crate::bytes::{contains_byte, contains_sub, dec_str, fmt_dec, is_match_at, skip_byte};
use crate::headers::{lemma_get_set_other, spec_content_length, spec_get};
use crate::method::Method;
use crate::request::Request;
use crate::response::{lemma_response_tokens, Response};
use crate::bytes::spec_trim_leading;
use crate::route::{cgi_scan, spec_relative, spec_resolve_with_root};
use crate::server_config::{spec_find_route, Config, ServerConfig};
use crate::static_files::spec_safe_path;
use crate::status::{spec_from_code, StatusCode};

verus! {

/// What the router decided for a request.
pub enum Dispatch {
    /// Answer with an error status.
    Error { code: u16 },
    /// Answer with a redirect.
    Redirect { location: Vec<u8>, permanent: bool },
    /// Serve the file or directory at the resolved path.
    ServeStatic { fs_path: Vec<u8>, is_head: bool, autoindex: bool, index: Option<Vec<u8>> },
    /// Store the request body under the upload directory.
    Upload { upload_dir: Vec<u8> },
    /// Delete the file at the resolved path.
    Delete { fs_path: Vec<u8> },
    /// Run the script at the resolved path through an interpreter.
    Cgi { script_path: Vec<u8>, interpreter: Vec<u8> },
}

/// The abstract form of a dispatch decision.
pub enum DispatchPlan {
    Error { code: u16 },
    Redirect { location: Seq<u8>, permanent: bool },
    ServeStatic { fs_path: Seq<u8>, is_head: bool, autoindex: bool, index: Option<Seq<u8>> },
    Upload { upload_dir: Seq<u8> },
    Delete { fs_path: Seq<u8> },
    Cgi { script_path: Seq<u8>, interpreter: Seq<u8> },
}

impl View for Dispatch {
    type V = DispatchPlan;

    open spec fn view(&self) -> DispatchPlan {
        match self {
            Dispatch::Error { code } => DispatchPlan::Error { code: *code },
            Dispatch::Redirect { location, permanent } => DispatchPlan::Redirect {
                location: location@,
                permanent: *permanent,
            },
            Dispatch::ServeStatic { fs_path, is_head, autoindex, index } => DispatchPlan::ServeStatic {
                fs_path: fs_path@,
                is_head: *is_head,
                autoindex: *autoindex,
                index: match index {
                    Some(ix) => Some(ix@),
                    None => None,
                },
            },
            Dispatch::Upload { upload_dir } => DispatchPlan::Upload { upload_dir: upload_dir@ },
            Dispatch::Delete { fs_path } => DispatchPlan::Delete { fs_path: fs_path@ },
            Dispatch::Cgi { script_path, interpreter } => DispatchPlan::Cgi {
                script_path: script_path@,
                interpreter: interpreter@,
            },
        }
    }
}

/// The dispatch decision for a request against a server configuration:
/// longest-prefix route selection, then the method gate, then redirects,
/// then path resolution and its safety check, then CGI, then the
/// per-method handler.
pub open spec fn spec_dispatch(req: Request, server: ServerConfig) -> DispatchPlan {
    match spec_find_route(server.routes@, req.path@) {
        None => DispatchPlan::Error { code: 404 },
        Some(i) => {
            let rt = server.routes@[i];
            if !rt.methods@.contains(req.method) {
                DispatchPlan::Error { code: 405 }
            } else {
                match rt.redirect {
                    Some(rd) => DispatchPlan::Redirect { location: rd.0@, permanent: rd.1 },
                    None => {
                        let fs = spec_resolve_with_root(rt, req.path@, server.root@);
                        if !spec_safe_path(fs) {
                            DispatchPlan::Error { code: 403 }
                        } else {
                            match cgi_scan(rt.cgi@, fs, 0) {
                                Some(h) => DispatchPlan::Cgi { script_path: fs, interpreter: h },
                                None => match req.method {
                                    Method::Get | Method::Head => DispatchPlan::ServeStatic {
                                        fs_path: fs,
                                        is_head: req.method is Head,
                                        autoindex: rt.autoindex,
                                        index: match rt.index {
                                            Some(ix) => Some(ix@),
                                            None => None,
                                        },
                                    },
                                    Method::Post => match rt.upload_dir {
                                        Some(d) => DispatchPlan::Upload { upload_dir: d@ },
                                        None => DispatchPlan::Error { code: 403 },
                                    },
                                    Method::Delete => DispatchPlan::Delete { fs_path: fs },
                                    _ => DispatchPlan::Error { code: 405 },
                                },
                            }
                        }
                    },
                }
            }
        },
    }
}

/// Every filesystem path a dispatch hands out is safe: free of `..` and
/// NUL.
pub proof fn lemma_dispatch_paths_safe(req: Request, server: ServerConfig)
    ensures
        match spec_dispatch(req, server) {
            DispatchPlan::ServeStatic { fs_path, .. } => spec_safe_path(fs_path),
            DispatchPlan::Delete { fs_path } => spec_safe_path(fs_path),
            DispatchPlan::Cgi { script_path, .. } => spec_safe_path(script_path),
            _ => true,
        },
{
}

/// An occurrence of a slash-free needle survives dropping leading
/// slashes.
proof fn lemma_contains_after_trim_leading(s: Seq<u8>, n: Seq<u8>)
    requires
        contains_sub(s, n),
        n.len() > 0,
        n[0] != 47,
    ensures
        contains_sub(spec_trim_leading(s, 47), n),
{
    let k = choose|k: int| is_match_at(s, n, k);
    let a = skip_byte(s, 47, 0);
    crate::bytes::lemma_skip_byte_bounds(s, 47, 0);
    assert(s[k] == n[0]);
    assert(k >= a);
    let t = spec_trim_leading(s, 47);
    assert forall|j: int| 0 <= j < n.len() implies t[k - a + j] == n[j] by {
        assert(t[k - a + j] == s[k + j]);
    }
    assert(is_match_at(t, n, k - a));
}

/// An occurrence of a needle in the suffix survives prefixing.
proof fn lemma_contains_in_concat(a: Seq<u8>, c: Seq<u8>, n: Seq<u8>)
    requires
        contains_sub(c, n),
    ensures
        contains_sub(a + c, n),
{
    let k = choose|k: int| is_match_at(c, n, k);
    assert forall|j: int| 0 <= j < n.len() implies (a + c)[a.len() + k + j] == n[j] by {
        assert((a + c)[a.len() + k + j] == c[k + j]);
    }
    assert(is_match_at(a + c, n, a.len() + k));
}

/// A request whose route-relative remainder still carries `..` or a NUL
/// byte is answered 403, provided it passes the route and method gates
/// and the route does not redirect.
pub proof fn lemma_traversal_rejected(req: Request, server: ServerConfig)
    requires
        spec_find_route(server.routes@, req.path@) matches Some(i) && {
            let rt = server.routes@[i];
            &&& rt.methods@.contains(req.method)
            &&& rt.redirect is None
            &&& {
                let rel = match rt.root {
                    Some(_) => spec_relative(rt.path@, req.path@),
                    None => req.path@,
                };
                contains_sub(rel, seq![46u8, 46u8]) || contains_byte(rel, 0)
            }
        },
    ensures
        spec_dispatch(req, server) == (DispatchPlan::Error { code: 403 }),
{
    let i = spec_find_route(server.routes@, req.path@).unwrap();
    let rt = server.routes@[i];
    let rel = match rt.root {
        Some(_) => spec_relative(rt.path@, req.path@),
        None => req.path@,
    };
    let root = match rt.root {
        Some(own) => own@,
        None => server.root@,
    };
    let fs = spec_resolve_with_root(rt, req.path@, server.root@);
    let clean = spec_trim_leading(rel, 47);
    let needle: Seq<u8> = if contains_sub(rel, seq![46u8, 46u8]) {
        seq![46u8, 46u8]
    } else {
        seq![0u8]
    };
    if needle == seq![0u8] {
        assert(contains_sub(rel, needle)) by {
            let k = choose|k: int| 0 <= k < rel.len() && rel[k] == 0;
            assert(is_match_at(rel, seq![0u8], k));
        }
    }
    lemma_contains_after_trim_leading(rel, needle);
    if clean.len() == 0 {
        let kk = choose|kk: int| is_match_at(clean, needle, kk);
        assert(false);
    } else {
        lemma_contains_in_concat(root + seq![47u8], clean, needle);
        assert(root + seq![47u8] + clean =~= (root + seq![47u8]) + clean);
        assert(contains_sub(fs, needle));
        if needle == seq![0u8] {
            let k3 = choose|k3: int| is_match_at(fs, needle, k3);
            assert(fs[k3 + 0] == needle[0]);
            assert(contains_byte(fs, 0)) by {
                assert(0 <= k3 < fs.len() && fs[k3] == 0);
            }
        }
        assert(!spec_safe_path(fs));
    }
}

/// The request handler: turns a parsed request into a dispatch decision.
pub struct Handler {
    /// The whole configuration the handler serves.
    pub config: Config,
}

impl Handler {
    /// Creates a handler over a configuration.
    pub fn new(config: Config) -> (r: Handler)
        ensures
            r.config == config,
    {
        Handler { config }
    }

    /// Decides how a request is serviced under a server configuration.
    pub fn handle(&self, request: &Request, server: &ServerConfig) -> (r: Dispatch)
        ensures
            r@ == spec_dispatch(*request, *server),
    {
        let route = match server.find_route(request.path.as_slice()) {
            Some(rt) => rt,
            None => {
                return Dispatch::Error { code: 404 };
            },
        };
        if !route.is_method_allowed(&request.method) {
            return Dispatch::Error { code: 405 };
        }
        match &route.redirect {
            Some(rd) => {
                return Dispatch::Redirect {
                    location: crate::bytes::to_vec(rd.0.as_slice()),
                    permanent: rd.1,
                };
            },
            None => {},
        }
        let fs_path = route.resolve_path_with_root(request.path.as_slice(), server.root.as_slice());
        if !crate::static_files::StaticFiles::is_safe_path(fs_path.as_slice()) {
            return Dispatch::Error { code: 403 };
        }
        match route.get_cgi_handler(fs_path.as_slice()) {
            Some(interpreter) => {
                return Dispatch::Cgi { script_path: fs_path, interpreter };
            },
            None => {},
        }
        match request.method {
            Method::Get | Method::Head => Dispatch::ServeStatic {
                fs_path,
                is_head: matches!(request.method, Method::Head),
                autoindex: route.autoindex,
                index: match &route.index {
                    Some(ix) => Some(crate::bytes::to_vec(ix.as_slice())),
                    None => None,
                },
            },
            Method::Post => match &route.upload_dir {
                Some(d) => Dispatch::Upload { upload_dir: crate::bytes::to_vec(d.as_slice()) },
                None => Dispatch::Error { code: 403 },
            },
            Method::Delete => Dispatch::Delete { fs_path },
            _ => Dispatch::Error { code: 405 },
        }
    }
}

/// The reason text of a built-in error page.
pub open spec fn spec_error_msg(code: u16) -> Seq<u8> {
    if code == 400 {
        "Bad Request".spec_bytes()
    } else if code == 403 {
        "Forbidden".spec_bytes()
    } else if code == 404 {
        "Not Found".spec_bytes()
    } else if code == 405 {
        "Method Not Allowed".spec_bytes()
    } else if code == 413 {
        "Payload Too Large".spec_bytes()
    } else {
        "Internal Server Error".spec_bytes()
    }
}

/// The status of a built-in error page: unsupported codes fall back to
/// the internal error status.
pub open spec fn spec_error_status(code: u16) -> StatusCode {
    if code == 400 {
        StatusCode::BadRequest
    } else if code == 403 {
        StatusCode::Forbidden
    } else if code == 404 {
        StatusCode::NotFound
    } else if code == 405 {
        StatusCode::MethodNotAllowed
    } else if code == 413 {
        StatusCode::PayloadTooLarge
    } else {
        StatusCode::InternalServerError
    }
}

/// The body of a built-in error page.
pub open spec fn spec_error_body(code: u16) -> Seq<u8> {
    "<!DOCTYPE html>\n<html>\n<head><title>".spec_bytes() + dec_str(code as nat) + seq![32u8]
        + spec_error_msg(code) + "</title></head>\n<body>\n<h1>".spec_bytes() + dec_str(
        code as nat,
    ) + seq![32u8] + spec_error_msg(code) + "</h1>\n</body>\n</html>".spec_bytes()
}

/// The built-in error page for a status code: a minimal HTML body naming
/// the code and its reason.
pub fn error_response(status_code: u16) -> (r: Response)
    ensures
        r.status == spec_error_status(status_code),
        r.body@ == spec_error_body(status_code),
        spec_get(r.headers@, "content-type".spec_bytes()) == Some(
            "text/html; charset=utf-8".spec_bytes(),
        ),
        spec_content_length(r.headers@) == Some(r.body@.len() as int),
        r.headers.wf(),
{
    let resp = if status_code == 400 {
        Response::bad_request()
    } else if status_code == 403 {
        Response::forbidden()
    } else if status_code == 404 {
        Response::not_found()
    } else if status_code == 405 {
        Response::method_not_allowed()
    } else if status_code == 413 {
        Response::payload_too_large()
    } else {
        Response::internal_error()
    };
    let msg: &str = if status_code == 400 {
        "Bad Request"
    } else if status_code == 403 {
        "Forbidden"
    } else if status_code == 404 {
        "Not Found"
    } else if status_code == 405 {
        "Method Not Allowed"
    } else if status_code == 413 {
        "Payload Too Large"
    } else {
        "Internal Server Error"
    };
    let mut body: Vec<u8> = Vec::new();
    body.extend_from_slice("<!DOCTYPE html>\n<html>\n<head><title>".as_bytes());
    let code = fmt_dec(status_code as u64);
    body.extend_from_slice(code.as_slice());
    body.push(32);
    body.extend_from_slice(msg.as_bytes());
    body.extend_from_slice("</title></head>\n<body>\n<h1>".as_bytes());
    body.extend_from_slice(code.as_slice());
    body.push(32);
    body.extend_from_slice(msg.as_bytes());
    body.extend_from_slice("</h1>\n</body>\n</html>".as_bytes());
    proof {
        assert(body@ =~= spec_error_body(status_code));
        lemma_response_tokens();
        crate::headers::lemma_header_tokens();
        lemma_get_set_other(
            resp.headers@,
            "content-type".spec_bytes(),
            "text/html; charset=utf-8".spec_bytes(),
            "connection".spec_bytes(),
        );
    }
    let with_ct = resp.content_type("text/html; charset=utf-8".as_bytes());
    with_ct.body(body)
}

/// A configured error page served with the original status code: the
/// page's contents under its own media type.
pub fn error_page_response(status_code: u16, page_path: &[u8], contents: Vec<u8>) -> (r: Response)
    ensures
        r.status == (match spec_from_code(status_code) {
            Some(s) => s,
            None => StatusCode::InternalServerError,
        }),
        r.body@ == contents@,
        spec_get(r.headers@, "content-type".spec_bytes()) == Some(
            crate::response::spec_mime(page_path@),
        ),
        spec_content_length(r.headers@) == Some(contents@.len() as int),
        r.headers.wf(),
{
    let mut resp = crate::static_files::StaticFiles::file_response(page_path, contents);
    resp.status = match StatusCode::from_code(status_code) {
        Some(s) => s,
        None => StatusCode::InternalServerError,
    };
    resp
}

/// The response confirming a deletion.
pub fn delete_ok_response() -> (r: Response)
    ensures
        r.status == StatusCode::Okay,
        r.body@ == "{\"status\":\"ok\",\"message\":\"File deleted\"}".spec_bytes(),
        spec_get(r.headers@, "content-type".spec_bytes()) == Some("application/json".spec_bytes()),
        spec_content_length(r.headers@) == Some(r.body@.len() as int),
        r.headers.wf(),
{
    Response::ok().json("{\"status\":\"ok\",\"message\":\"File deleted\"}")
}

} // verus!
