//! The response: status, headers and body, with builder helpers and the
//! wire serializer.

use vstd::prelude::*;
use vstd::string::StringSliceAdditionalSpecFns;

use crate::bytes::{
    bytes_eq, dec_str, fmt_dec, lemma_dec_str_val, lower, rfind_byte, rindex_of, to_lower, to_vec,
};
use crate::headers::{
    lemma_get_set, lemma_get_set_other, lemma_header_tokens, spec_add, spec_content_length,
    spec_get, spec_keep_alive, spec_set, spec_wire, Headers, HeaderSeq,
};
use crate::status::{spec_code, spec_reason, StatusCode};

verus! {

/// The header map of a freshly built response: the `server` banner alone.
pub open spec fn fresh_headers() -> HeaderSeq {
    seq![("server".spec_bytes(), seq!["localhost/0.1.0".spec_bytes()])]
}

/// A response as every constructor returns it: the given status, protocol
/// version token, the `server` banner, an empty body.
pub open spec fn is_fresh(r: Response, status: StatusCode) -> bool {
    &&& r.status == status
    &&& r.version@ == "HTTP/1.1".spec_bytes()
    &&& r.headers@ == fresh_headers()
    &&& r.headers.wf()
    &&& r.body@ == Seq::<u8>::empty()
}

/// The `Set-Cookie` value built from a name, a value and options.
pub open spec fn cookie_header_value(n: Seq<u8>, v: Seq<u8>, o: Option<Seq<u8>>) -> Seq<u8> {
    match o {
        Some(x) => n + seq![61u8] + v + seq![59u8, 32u8] + x,
        None => n + seq![61u8] + v,
    }
}

/// The status line of a response.
pub open spec fn spec_status_line(version: Seq<u8>, status: StatusCode) -> Seq<u8> {
    version + seq![32u8] + dec_str(spec_code(status) as nat) + seq![32u8] + spec_reason(status)
        + seq![13u8, 10u8]
}

/// The full wire form of a response: status line, header lines, one blank
/// line, body.
pub open spec fn spec_to_bytes(r: Response) -> Seq<u8> {
    spec_status_line(r.version@, r.status) + spec_wire(r.headers@) + seq![13u8, 10u8] + r.body@
}

/// The mixed-case header names the builders write, and their lowercase
/// forms.
pub proof fn lemma_response_tokens()
    ensures
        lower("Server".spec_bytes()) == "server".spec_bytes(),
        lower("Content-Type".spec_bytes()) == "content-type".spec_bytes(),
        lower("Content-Length".spec_bytes()) == "content-length".spec_bytes(),
        lower("Location".spec_bytes()) == "location".spec_bytes(),
        lower("Set-Cookie".spec_bytes()) == "set-cookie".spec_bytes(),
        lower("Connection".spec_bytes()) == "connection".spec_bytes(),
        lower("server".spec_bytes()) == "server".spec_bytes(),
        lower("location".spec_bytes()) == "location".spec_bytes(),
        lower("set-cookie".spec_bytes()) == "set-cookie".spec_bytes(),
        "content-length".spec_bytes() != "content-type".spec_bytes(),
        "content-length".spec_bytes() != "location".spec_bytes(),
        "content-length".spec_bytes() != "connection".spec_bytes(),
        "content-length".spec_bytes() != "server".spec_bytes(),
        "content-type".spec_bytes() != "connection".spec_bytes(),
        "content-type".spec_bytes() != "location".spec_bytes(),
        "content-type".spec_bytes() != "server".spec_bytes(),
{
    reveal_strlit("Server");
    reveal_strlit("Content-Type");
    reveal_strlit("Content-Length");
    reveal_strlit("Location");
    reveal_strlit("Set-Cookie");
    reveal_strlit("Connection");
    reveal_strlit("server");
    reveal_strlit("content-type");
    reveal_strlit("content-length");
    reveal_strlit("location");
    reveal_strlit("set-cookie");
    reveal_strlit("connection");
    vstd::string::is_ascii_spec_bytes("Server");
    vstd::string::is_ascii_spec_bytes("Content-Type");
    vstd::string::is_ascii_spec_bytes("Content-Length");
    vstd::string::is_ascii_spec_bytes("Location");
    vstd::string::is_ascii_spec_bytes("Set-Cookie");
    vstd::string::is_ascii_spec_bytes("Connection");
    vstd::string::is_ascii_spec_bytes("server");
    vstd::string::is_ascii_spec_bytes("content-type");
    vstd::string::is_ascii_spec_bytes("content-length");
    vstd::string::is_ascii_spec_bytes("location");
    vstd::string::is_ascii_spec_bytes("set-cookie");
    vstd::string::is_ascii_spec_bytes("connection");
    assert(lower("Server".spec_bytes()) =~= "server".spec_bytes());
    assert(lower("Content-Type".spec_bytes()) =~= "content-type".spec_bytes());
    assert(lower("Content-Length".spec_bytes()) =~= "content-length".spec_bytes());
    assert(lower("Location".spec_bytes()) =~= "location".spec_bytes());
    assert(lower("Set-Cookie".spec_bytes()) =~= "set-cookie".spec_bytes());
    assert(lower("Connection".spec_bytes()) =~= "connection".spec_bytes());
    assert(lower("server".spec_bytes()) =~= "server".spec_bytes());
    assert(lower("location".spec_bytes()) =~= "location".spec_bytes());
    assert(lower("set-cookie".spec_bytes()) =~= "set-cookie".spec_bytes());
    assert("content-length".spec_bytes().len() != "content-type".spec_bytes().len());
    assert("content-length".spec_bytes().len() != "location".spec_bytes().len());
    assert("content-length".spec_bytes().len() != "connection".spec_bytes().len());
    assert("content-length".spec_bytes().len() != "server".spec_bytes().len());
    assert("content-type".spec_bytes().len() != "connection".spec_bytes().len());
    assert("content-type".spec_bytes().len() != "location".spec_bytes().len());
    assert("content-type".spec_bytes().len() != "server".spec_bytes().len());
}

/// An HTTP response under construction or ready to serialize.
#[derive(Debug, Clone)]
pub struct Response {
    /// Protocol version token.
    pub version: Vec<u8>,
    /// Response status.
    pub status: StatusCode,
    /// Response headers.
    pub headers: Headers,
    /// Response body.
    pub body: Vec<u8>,
}

impl Response {
    /// Creates a response with the given status and the `server` banner.
    pub fn new(status: StatusCode) -> (r: Response)
        ensures
            is_fresh(r, status),
    {
        proof {
            lemma_response_tokens();
        }
        let mut headers = Headers::new();
        headers.set("Server".as_bytes(), "localhost/0.1.0".as_bytes());
        let r = Response { version: to_vec("HTTP/1.1".as_bytes()), status, headers, body: Vec::new() };
        proof {
            assert(r.headers@ =~~= fresh_headers());
        }
        r
    }

    /// A fresh 200 response.
    pub fn ok() -> (r: Response)
        ensures
            is_fresh(r, StatusCode::Okay),
    {
        Self::new(StatusCode::Okay)
    }

    /// A fresh 404 response.
    pub fn not_found() -> (r: Response)
        ensures
            is_fresh(r, StatusCode::NotFound),
    {
        Self::new(StatusCode::NotFound)
    }

    /// A fresh 400 response.
    pub fn bad_request() -> (r: Response)
        ensures
            is_fresh(r, StatusCode::BadRequest),
    {
        Self::new(StatusCode::BadRequest)
    }

    /// A fresh 403 response.
    pub fn forbidden() -> (r: Response)
        ensures
            is_fresh(r, StatusCode::Forbidden),
    {
        Self::new(StatusCode::Forbidden)
    }

    /// A fresh 405 response.
    pub fn method_not_allowed() -> (r: Response)
        ensures
            is_fresh(r, StatusCode::MethodNotAllowed),
    {
        Self::new(StatusCode::MethodNotAllowed)
    }

    /// A fresh 413 response.
    pub fn payload_too_large() -> (r: Response)
        ensures
            is_fresh(r, StatusCode::PayloadTooLarge),
    {
        Self::new(StatusCode::PayloadTooLarge)
    }

    /// A fresh 500 response.
    pub fn internal_error() -> (r: Response)
        ensures
            is_fresh(r, StatusCode::InternalServerError),
    {
        Self::new(StatusCode::InternalServerError)
    }

    /// A 301 or 302 response with the `location` header set.
    pub fn redirect(location: &[u8], permanent: bool) -> (r: Response)
        ensures
            r.status == (if permanent {
                StatusCode::MovedPermanently
            } else {
                StatusCode::Found
            }),
            r.version@ == "HTTP/1.1".spec_bytes(),
            r.headers@ == spec_set(fresh_headers(), "location".spec_bytes(), location@),
            spec_get(r.headers@, "location".spec_bytes()) == Some(location@),
            r.headers.wf(),
            r.body@ == Seq::<u8>::empty(),
    {
        proof {
            lemma_response_tokens();
            lemma_get_set(fresh_headers(), "location".spec_bytes(), location@);
        }
        let status = if permanent {
            StatusCode::MovedPermanently
        } else {
            StatusCode::Found
        };
        let mut r = Self::new(status);
        r.headers.set("Location".as_bytes(), location);
        r
    }

    /// Sets the `content-type` header.
    pub fn content_type(self, mime: &[u8]) -> (r: Response)
        ensures
            r.status == self.status,
            r.version@ == self.version@,
            r.body@ == self.body@,
            r.headers@ == spec_set(self.headers@, "content-type".spec_bytes(), mime@),
            spec_get(r.headers@, "content-type".spec_bytes()) == Some(mime@),
            self.headers.wf() ==> r.headers.wf(),
    {
        proof {
            lemma_response_tokens();
            lemma_get_set(self.headers@, "content-type".spec_bytes(), mime@);
        }
        let mut r = self;
        r.headers.set("Content-Type".as_bytes(), mime);
        r
    }

    /// Sets the body and the matching `content-length` header.
    pub fn body(self, body: Vec<u8>) -> (r: Response)
        ensures
            r.status == self.status,
            r.version@ == self.version@,
            r.body@ == body@,
            r.headers@ == spec_set(
                self.headers@,
                "content-length".spec_bytes(),
                dec_str(body@.len()),
            ),
            spec_content_length(r.headers@) == Some(body@.len() as int),
            spec_get(r.headers@, "content-type".spec_bytes()) == spec_get(
                self.headers@,
                "content-type".spec_bytes(),
            ),
            spec_keep_alive(r.headers@) == spec_keep_alive(self.headers@),
            self.headers.wf() ==> r.headers.wf(),
    {
        proof {
            lemma_response_tokens();
            lemma_header_tokens();
            lemma_dec_str_val(body@.len());
            lemma_get_set(self.headers@, "content-length".spec_bytes(), dec_str(body@.len()));
            lemma_get_set_other(
                self.headers@,
                "content-length".spec_bytes(),
                dec_str(body@.len()),
                "content-type".spec_bytes(),
            );
            assert("content-length".spec_bytes() != "connection".spec_bytes());
            lemma_get_set_other(
                self.headers@,
                "content-length".spec_bytes(),
                dec_str(body@.len()),
                "connection".spec_bytes(),
            );
        }
        let n = body.len();
        let len_bytes = fmt_dec(n as u64);
        let mut r = self;
        r.headers.set("Content-Length".as_bytes(), len_bytes.as_slice());
        r.body = body;
        r
    }

    /// Sets the body from text.
    pub fn body_str(self, body: &str) -> (r: Response)
        ensures
            r.status == self.status,
            r.version@ == self.version@,
            r.body@ == body.spec_bytes(),
            r.headers@ == spec_set(
                self.headers@,
                "content-length".spec_bytes(),
                dec_str(body.spec_bytes().len()),
            ),
            spec_content_length(r.headers@) == Some(body.spec_bytes().len() as int),
            spec_get(r.headers@, "content-type".spec_bytes()) == spec_get(
                self.headers@,
                "content-type".spec_bytes(),
            ),
            spec_keep_alive(r.headers@) == spec_keep_alive(self.headers@),
            self.headers.wf() ==> r.headers.wf(),
    {
        self.body(to_vec(body.as_bytes()))
    }

    /// Sets an HTML body with its content type.
    pub fn html(self, html: &str) -> (r: Response)
        ensures
            r.status == self.status,
            r.version@ == self.version@,
            r.body@ == html.spec_bytes(),
            spec_get(r.headers@, "content-type".spec_bytes()) == Some(
                "text/html; charset=utf-8".spec_bytes(),
            ),
            spec_content_length(r.headers@) == Some(html.spec_bytes().len() as int),
            spec_keep_alive(r.headers@) == spec_keep_alive(self.headers@),
            self.headers.wf() ==> r.headers.wf(),
    {
        proof {
            lemma_response_tokens();
            lemma_header_tokens();
            lemma_get_set_other(
                self.headers@,
                "content-type".spec_bytes(),
                "text/html; charset=utf-8".spec_bytes(),
                "connection".spec_bytes(),
            );
        }
        self.content_type("text/html; charset=utf-8".as_bytes()).body_str(html)
    }

    /// Sets a JSON body with its content type.
    pub fn json(self, json: &str) -> (r: Response)
        ensures
            r.status == self.status,
            r.version@ == self.version@,
            r.body@ == json.spec_bytes(),
            spec_get(r.headers@, "content-type".spec_bytes()) == Some(
                "application/json".spec_bytes(),
            ),
            spec_content_length(r.headers@) == Some(json.spec_bytes().len() as int),
            spec_keep_alive(r.headers@) == spec_keep_alive(self.headers@),
            self.headers.wf() ==> r.headers.wf(),
    {
        proof {
            lemma_response_tokens();
            lemma_header_tokens();
            lemma_get_set_other(
                self.headers@,
                "content-type".spec_bytes(),
                "application/json".spec_bytes(),
                "connection".spec_bytes(),
            );
        }
        self.content_type("application/json".as_bytes()).body_str(json)
    }

    /// Sets a plain-text body with its content type.
    pub fn text(self, text: &str) -> (r: Response)
        ensures
            r.status == self.status,
            r.version@ == self.version@,
            r.body@ == text.spec_bytes(),
            spec_get(r.headers@, "content-type".spec_bytes()) == Some(
                "text/plain; charset=utf-8".spec_bytes(),
            ),
            spec_content_length(r.headers@) == Some(text.spec_bytes().len() as int),
            spec_keep_alive(r.headers@) == spec_keep_alive(self.headers@),
            self.headers.wf() ==> r.headers.wf(),
    {
        proof {
            lemma_response_tokens();
            lemma_header_tokens();
            lemma_get_set_other(
                self.headers@,
                "content-type".spec_bytes(),
                "text/plain; charset=utf-8".spec_bytes(),
                "connection".spec_bytes(),
            );
        }
        self.content_type("text/plain; charset=utf-8".as_bytes()).body_str(text)
    }

    /// Appends a `set-cookie` header.
    pub fn set_cookie(self, name: &[u8], value: &[u8], options: Option<&[u8]>) -> (r: Response)
        ensures
            r.status == self.status,
            r.version@ == self.version@,
            r.body@ == self.body@,
            r.headers@ == spec_add(
                self.headers@,
                "set-cookie".spec_bytes(),
                cookie_header_value(
                    name@,
                    value@,
                    match options {
                        Some(o) => Some(o@),
                        None => None,
                    },
                ),
            ),
            self.headers.wf() ==> r.headers.wf(),
    {
        proof {
            lemma_response_tokens();
        }
        let mut cookie: Vec<u8> = Vec::new();
        cookie.extend_from_slice(name);
        cookie.push(61);
        cookie.extend_from_slice(value);
        match options {
            Some(o) => {
                cookie.push(59);
                cookie.push(32);
                cookie.extend_from_slice(o);
                proof {
                    assert(cookie@ =~= cookie_header_value(name@, value@, Some(o@)));
                }
            },
            None => {
                proof {
                    assert(cookie@ =~= cookie_header_value(name@, value@, None::<Seq<u8>>));
                }
            },
        }
        let mut r = self;
        r.headers.add("Set-Cookie".as_bytes(), cookie.as_slice());
        r
    }

    /// Sets the `connection` header.
    pub fn connection(self, value: &[u8]) -> (r: Response)
        ensures
            r.status == self.status,
            r.version@ == self.version@,
            r.body@ == self.body@,
            r.headers@ == spec_set(self.headers@, "connection".spec_bytes(), value@),
            spec_keep_alive(r.headers@) == (lower(value@) != "close".spec_bytes()),
            self.headers.wf() ==> r.headers.wf(),
    {
        proof {
            lemma_response_tokens();
            lemma_header_tokens();
            lemma_get_set(self.headers@, "connection".spec_bytes(), value@);
        }
        let mut r = self;
        r.headers.set("Connection".as_bytes(), value);
        r
    }

    /// Serializes the response: status line, header lines, one blank line,
    /// body.
    pub fn to_bytes(&self) -> (r: Vec<u8>)
        ensures
            r@ == spec_to_bytes(*self),
    {
        let mut out: Vec<u8> = Vec::new();
        out.extend_from_slice(self.version.as_slice());
        out.push(32);
        let code = fmt_dec(self.status.code() as u64);
        out.extend_from_slice(code.as_slice());
        out.push(32);
        out.extend_from_slice(self.status.reason().as_bytes());
        out.push(13);
        out.push(10);
        let head = self.headers.to_http_string();
        out.extend_from_slice(head.as_slice());
        out.push(13);
        out.push(10);
        out.extend_from_slice(self.body.as_slice());
        proof {
            assert(out@ =~= spec_to_bytes(*self));
        }
        out
    }
}

/// A version token fit for the wire: non-empty and free of CR and LF.
pub open spec fn version_wire_safe(v: Seq<u8>) -> bool {
    v.len() > 0 && forall|i: int| 0 <= i < v.len() ==> v[i] != 13 && v[i] != 10
}

/// The serialized response holds exactly one blank line between the
/// header block and the body: the first CR LF CR LF in `to_bytes` is the
/// one that ends the headers, whatever the body holds.
pub proof fn lemma_single_blank_line(r: Response)
    requires
        version_wire_safe(r.version@),
        crate::headers::wire_safe(r.headers@),
    ensures
        crate::bytes::find_sub(spec_to_bytes(r), crate::codec::crlf2()) == Some(
            spec_status_line(r.version@, r.status).len() + spec_wire(r.headers@).len() - 2,
        ),
{
    let status_body = r.version@ + seq![32u8] + dec_str(spec_code(r.status) as nat) + seq![32u8]
        + spec_reason(r.status);
    let ls = seq![status_body] + crate::codec::wire_line_list(r.headers@, 0);
    assert(crate::codec::line_ok(status_body)) by {
        crate::status::lemma_reason_wire_safe(r.status);
        lemma_dec_str_val(spec_code(r.status) as nat);
        assert forall|i: int|
            0 <= i < status_body.len() implies status_body[i] != 13 && status_body[i] != 10 by {
            let v = r.version@;
            let code = dec_str(spec_code(r.status) as nat);
            let reason = spec_reason(r.status);
            if i < v.len() {
                assert(status_body[i] == v[i]);
            } else if i < v.len() + 1 {
                assert(status_body[i] == 32);
            } else if i < v.len() + 1 + code.len() {
                assert(status_body[i] == code[i - v.len() - 1]);
                assert(crate::bytes::is_digit(code[i - v.len() - 1]));
            } else if i < v.len() + 2 + code.len() {
                assert(status_body[i] == 32);
            } else {
                assert(status_body[i] == reason[i - v.len() - 2 - code.len()]);
            }
        }
    }
    assert(crate::codec::lines_ok(ls, 0)) by {
        crate::codec::lemma_wire_lines_ok(r.headers@, 0);
        let ws = crate::codec::wire_line_list(r.headers@, 0);
        assert forall|j: int| 0 <= j < ls.len() implies crate::codec::line_ok(
            #[trigger] ls[j],
        ) by {
            if j == 0 {
                assert(ls[j] == status_body);
            } else {
                assert(ls[j] == ws[j - 1]);
            }
        }
    }
    crate::codec::lemma_wire_join(r.headers@, 0);
    crate::codec::lemma_join_offset(
        seq![status_body],
        crate::codec::wire_line_list(r.headers@, 0),
        0,
    );
    assert(crate::codec::join_lines(ls, 0) =~= spec_status_line(r.version@, r.status) + spec_wire(
        r.headers@,
    ));
    crate::codec::lemma_first_separator(ls, 0, r.body@);
    assert(spec_to_bytes(r) =~= crate::codec::join_lines(ls, 0) + seq![13u8, 10u8] + r.body@);
}

/// The file extension of a path: the bytes after the last dot, or the
/// whole path when it has none.
pub open spec fn spec_ext(p: Seq<u8>) -> Seq<u8> {
    match rfind_byte(p, 46) {
        Some(i) => p.subrange(i + 1, p.len() as int),
        None => p,
    }
}

/// The content type a path's extension maps to, case-insensitively;
/// unknown extensions map to the octet-stream type.
pub open spec fn spec_mime(p: Seq<u8>) -> Seq<u8> {
    let e = lower(spec_ext(p));
    if e == "html".spec_bytes() || e == "htm".spec_bytes() {
        "text/html; charset=utf-8".spec_bytes()
    } else if e == "css".spec_bytes() {
        "text/css; charset=utf-8".spec_bytes()
    } else if e == "js".spec_bytes() {
        "application/javascript; charset=utf-8".spec_bytes()
    } else if e == "json".spec_bytes() {
        "application/json".spec_bytes()
    } else if e == "xml".spec_bytes() {
        "application/xml".spec_bytes()
    } else if e == "txt".spec_bytes() {
        "text/plain; charset=utf-8".spec_bytes()
    } else if e == "png".spec_bytes() {
        "image/png".spec_bytes()
    } else if e == "jpg".spec_bytes() || e == "jpeg".spec_bytes() {
        "image/jpeg".spec_bytes()
    } else if e == "gif".spec_bytes() {
        "image/gif".spec_bytes()
    } else if e == "svg".spec_bytes() {
        "image/svg+xml".spec_bytes()
    } else if e == "ico".spec_bytes() {
        "image/x-icon".spec_bytes()
    } else if e == "webp".spec_bytes() {
        "image/webp".spec_bytes()
    } else if e == "woff".spec_bytes() {
        "font/woff".spec_bytes()
    } else if e == "woff2".spec_bytes() {
        "font/woff2".spec_bytes()
    } else if e == "ttf".spec_bytes() {
        "font/ttf".spec_bytes()
    } else if e == "otf".spec_bytes() {
        "font/otf".spec_bytes()
    } else if e == "pdf".spec_bytes() {
        "application/pdf".spec_bytes()
    } else if e == "zip".spec_bytes() {
        "application/zip".spec_bytes()
    } else if e == "mp3".spec_bytes() {
        "audio/mpeg".spec_bytes()
    } else if e == "mp4".spec_bytes() {
        "video/mp4".spec_bytes()
    } else if e == "webm".spec_bytes() {
        "video/webm".spec_bytes()
    } else {
        "application/octet-stream".spec_bytes()
    }
}

/// Maps a file path to the content type of its extension.
pub fn mime_type(path: &[u8]) -> (r: &'static str)
    ensures
        r.spec_bytes() == spec_mime(path@),
{
    let plen = path.len();
    let ext: Vec<u8> = match rindex_of(path, 46) {
        Some(i) => {
            let e = to_vec(&path[i + 1..plen]);
            proof {
                assert(e@ =~= path@.subrange(i + 1, path@.len() as int));
            }
            e
        },
        None => to_vec(path),
    };
    let le = to_lower(ext.as_slice());
    if bytes_eq(le.as_slice(), "html".as_bytes()) || bytes_eq(le.as_slice(), "htm".as_bytes()) {
        "text/html; charset=utf-8"
    } else if bytes_eq(le.as_slice(), "css".as_bytes()) {
        "text/css; charset=utf-8"
    } else if bytes_eq(le.as_slice(), "js".as_bytes()) {
        "application/javascript; charset=utf-8"
    } else if bytes_eq(le.as_slice(), "json".as_bytes()) {
        "application/json"
    } else if bytes_eq(le.as_slice(), "xml".as_bytes()) {
        "application/xml"
    } else if bytes_eq(le.as_slice(), "txt".as_bytes()) {
        "text/plain; charset=utf-8"
    } else if bytes_eq(le.as_slice(), "png".as_bytes()) {
        "image/png"
    } else if bytes_eq(le.as_slice(), "jpg".as_bytes()) || bytes_eq(
        le.as_slice(),
        "jpeg".as_bytes(),
    ) {
        "image/jpeg"
    } else if bytes_eq(le.as_slice(), "gif".as_bytes()) {
        "image/gif"
    } else if bytes_eq(le.as_slice(), "svg".as_bytes()) {
        "image/svg+xml"
    } else if bytes_eq(le.as_slice(), "ico".as_bytes()) {
        "image/x-icon"
    } else if bytes_eq(le.as_slice(), "webp".as_bytes()) {
        "image/webp"
    } else if bytes_eq(le.as_slice(), "woff".as_bytes()) {
        "font/woff"
    } else if bytes_eq(le.as_slice(), "woff2".as_bytes()) {
        "font/woff2"
    } else if bytes_eq(le.as_slice(), "ttf".as_bytes()) {
        "font/ttf"
    } else if bytes_eq(le.as_slice(), "otf".as_bytes()) {
        "font/otf"
    } else if bytes_eq(le.as_slice(), "pdf".as_bytes()) {
        "application/pdf"
    } else if bytes_eq(le.as_slice(), "zip".as_bytes()) {
        "application/zip"
    } else if bytes_eq(le.as_slice(), "mp3".as_bytes()) {
        "audio/mpeg"
    } else if bytes_eq(le.as_slice(), "mp4".as_bytes()) {
        "video/mp4"
    } else if bytes_eq(le.as_slice(), "webm".as_bytes()) {
        "video/webm"
    } else {
        "application/octet-stream"
    }
}

} // verus!
