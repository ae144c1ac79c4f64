//! The gateway interface: environment construction, query-string
//! re-serialization, and parsing of a script's output into a response.
//! Spawning the interpreter is left to the embedding program.

use vstd::prelude::*;
use vstd::string::StringSliceAdditionalSpecFns;

use crate::bytes::{
    bytes_eq, dec_str, find, find_byte, find_sub, first_non_ws, fmt_dec, index_of,
    lemma_find_byte_props, lemma_find_sub_props, lines, lower, next_token, parse_dec, spec_lines,
    spec_trim, to_lower, to_vec, tok_end, trim,
};
use crate::codec::crlf2;
use crate::error::ServerError;
use crate::headers::{spec_set, HeaderSeq};
use crate::method::method_name;
use crate::request::{qview, spec_qinsert, QuerySeq, Request};
use crate::response::{fresh_headers, Response};
use crate::server_config::spec_hostname;
use crate::status::{spec_from_code, StatusCode};

verus! {

/// The query pairs re-serialized as `k=v` joined with `&`.
pub open spec fn qs_join(q: QuerySeq, i: int) -> Seq<u8>
    decreases q.len() - i,
{
    if i < 0 || i >= q.len() {
        Seq::empty()
    } else {
        let sep: Seq<u8> = if i + 1 < q.len() {
            seq![38u8]
        } else {
            Seq::empty()
        };
        q[i].0 + seq![61u8] + q[i].1 + sep + qs_join(q, i + 1)
    }
}

/// A header-name byte in environment form: uppercased, `-` to `_`.
pub open spec fn env_byte(b: u8) -> u8 {
    if 97 <= b && b <= 122 {
        (b - 32) as u8
    } else if b == 45 {
        95u8
    } else {
        b
    }
}

/// The environment name of a request header: `HTTP_` and the folded name.
pub open spec fn env_name(n: Seq<u8>) -> Seq<u8> {
    "HTTP_".spec_bytes() + n.map_values(|b: u8| env_byte(b))
}

/// Folds the request headers into environment entries, first value each.
pub open spec fn env_header_fold(m: HeaderSeq, i: int, acc: QuerySeq) -> QuerySeq
    decreases m.len() - i,
{
    if i < 0 || i >= m.len() {
        acc
    } else {
        let acc2 = if m[i].1.len() > 0 {
            spec_qinsert(acc, env_name(m[i].0), m[i].1[0])
        } else {
            acc
        };
        env_header_fold(m, i + 1, acc2)
    }
}

/// The full CGI/1.1 environment of a request: the standard variables,
/// the content headers, one `HTTP_` entry per request header, and the
/// host variables.
pub open spec fn spec_build_env(req: Request, script: Seq<u8>) -> QuerySeq {
    let e0 = spec_qinsert(Seq::empty(), "REQUEST_METHOD".spec_bytes(), method_name(req.method));
    let e1 = spec_qinsert(e0, "SCRIPT_FILENAME".spec_bytes(), script);
    let e2 = spec_qinsert(e1, "SCRIPT_NAME".spec_bytes(), req.path@);
    let e3 = spec_qinsert(e2, "PATH_INFO".spec_bytes(), req.path@);
    let e4 = spec_qinsert(e3, "QUERY_STRING".spec_bytes(), qs_join(req.query_view(), 0));
    let e5 = spec_qinsert(e4, "SERVER_PROTOCOL".spec_bytes(), req.version@);
    let e6 = spec_qinsert(e5, "SERVER_SOFTWARE".spec_bytes(), "localhost/0.1.0".spec_bytes());
    let e7 = spec_qinsert(e6, "GATEWAY_INTERFACE".spec_bytes(), "CGI/1.1".spec_bytes());
    let e8 = match crate::headers::spec_get(req.headers@, "content-type".spec_bytes()) {
        Some(ct) => spec_qinsert(e7, "CONTENT_TYPE".spec_bytes(), ct),
        None => e7,
    };
    let e9 = match crate::headers::spec_content_length(req.headers@) {
        Some(cl) => spec_qinsert(e8, "CONTENT_LENGTH".spec_bytes(), dec_str(cl as nat)),
        None => e8,
    };
    let e10 = env_header_fold(req.headers@, 0, e9);
    match crate::headers::spec_get(req.headers@, "host".spec_bytes()) {
        Some(h) => {
            let e11 = spec_qinsert(e10, "HTTP_HOST".spec_bytes(), h);
            spec_qinsert(e11, "SERVER_NAME".spec_bytes(), spec_hostname(h))
        },
        None => e10,
    }
}

/// The CGI executor's verified parts.
pub struct CgiExecutor;

/// Builds the environment name of a header: `HTTP_` and the folded name.
fn env_name_of(n: &[u8]) -> (r: Vec<u8>)
    ensures
        r@ == env_name(n@),
{
    let mut r: Vec<u8> = Vec::new();
    r.extend_from_slice("HTTP_".as_bytes());
    let mut i: usize = 0;
    while i < n.len()
        invariant
            i <= n.len(),
            r@ == "HTTP_".spec_bytes() + n@.take(i as int).map_values(|b: u8| env_byte(b)),
        decreases n.len() - i,
    {
        let b = n[i];
        if 97 <= b && b <= 122 {
            r.push(b - 32);
        } else if b == 45 {
            r.push(95);
        } else {
            r.push(b);
        }
        proof {
            assert(r@ =~= "HTTP_".spec_bytes() + n@.take(i + 1).map_values(
                |b: u8| env_byte(b),
            ));
        }
        i = i + 1;
    }
    proof {
        assert(n@.take(n@.len() as int) =~= n@);
    }
    r
}

/// Binds a key in an environment list, the last writer winning.
fn env_set(env: &mut Vec<(Vec<u8>, Vec<u8>)>, k: Vec<u8>, v: Vec<u8>)
    ensures
        qview(final(env)@) == spec_qinsert(qview(old(env)@), k@, v@),
{
    let ghost m0 = qview(env@);
    proof {
        crate::request::lemma_qidx_props(m0, k@, 0);
    }
    let mut i: usize = 0;
    let n = env.len();
    while i < n
        invariant
            i <= n,
            n == env@.len(),
            m0 == qview(env@),
            crate::request::qidx_from(m0, k@, 0) == crate::request::qidx_from(m0, k@, i as int),
        decreases n - i,
    {
        if bytes_eq(env[i].0.as_slice(), k.as_slice()) {
            proof {
                assert(m0[i as int].0 == k@);
                assert(crate::request::qidx_from(m0, k@, i as int) == Some(i as int));
            }
            let _ = env.remove(i);
            env.insert(i, (k, v));
            proof {
                assert(qview(env@) =~~= spec_qinsert(m0, k@, v@));
            }
            return ;
        }
        i = i + 1;
    }
    proof {
        assert(crate::request::qidx_from(m0, k@, env@.len() as int) == None::<int>);
    }
    env.push((k, v));
    proof {
        assert(qview(env@) =~~= spec_qinsert(m0, k@, v@));
    }
}

/// The split of a script's output at the first blank line: CR LF CR LF
/// first, a bare LF LF otherwise.
pub open spec fn spec_cgi_split(out: Seq<u8>) -> Option<(Seq<u8>, Seq<u8>)> {
    match find_sub(out, crlf2()) {
        Some(p) => if 0 <= p && p + 4 <= out.len() {
            Some((out.subrange(0, p), out.subrange(p + 4, out.len() as int)))
        } else {
            None
        },
        None => match find_sub(out, seq![10u8, 10u8]) {
            Some(p) => if 0 <= p && p + 2 <= out.len() {
                Some((out.subrange(0, p), out.subrange(p + 2, out.len() as int)))
            } else {
                None
            },
            None => None,
        },
    }
}

/// The status a `Status:` value selects: its first token, when it is a
/// supported numeric code; the current status otherwise.
pub open spec fn spec_status_of(value: Seq<u8>, st: StatusCode) -> StatusCode {
    let a = first_non_ws(value, 0);
    if a >= value.len() {
        st
    } else {
        let t = value.subrange(a, tok_end(value, a));
        match crate::bytes::dec_opt(t) {
            Some(c) => if c <= 65535 {
                match spec_from_code(c as u16) {
                    Some(s) => s,
                    None => st,
                }
            } else {
                st
            },
            None => st,
        }
    }
}

/// Folds the script's header lines: `Status` selects the status,
/// `Location` upgrades a 200 to 302, `Content-Type` is tracked, and every
/// named header is set.
pub open spec fn cgi_fold(ls: Seq<Seq<u8>>, i: int, st: StatusCode, hs: HeaderSeq, has_ct: bool) -> (
    StatusCode,
    HeaderSeq,
    bool,
)
    decreases ls.len() - i,
{
    if i < 0 || i >= ls.len() {
        (st, hs, has_ct)
    } else {
        let l = ls[i];
        match find_byte(l, 58) {
            None => cgi_fold(ls, i + 1, st, hs, has_ct),
            Some(c) => {
                let name = spec_trim(l.subrange(0, c));
                let value = spec_trim(l.subrange(c + 1, l.len() as int));
                let lname = lower(name);
                if lname == "status".spec_bytes() {
                    cgi_fold(ls, i + 1, spec_status_of(value, st), hs, has_ct)
                } else if lname == "content-type".spec_bytes() {
                    cgi_fold(ls, i + 1, st, spec_set(hs, "content-type".spec_bytes(), value), true)
                } else if lname == "location".spec_bytes() {
                    let st2 = if st == StatusCode::Okay {
                        StatusCode::Found
                    } else {
                        st
                    };
                    cgi_fold(ls, i + 1, st2, spec_set(hs, "location".spec_bytes(), value), has_ct)
                } else {
                    cgi_fold(ls, i + 1, st, spec_set(hs, lname, value), has_ct)
                }
            },
        }
    }
}

/// The response a script's output denotes: status, headers and body.
pub open spec fn spec_parse_cgi(out: Seq<u8>) -> (StatusCode, HeaderSeq, Seq<u8>) {
    match spec_cgi_split(out) {
        None => (
            StatusCode::Okay,
            spec_set(
                spec_set(fresh_headers(), "content-type".spec_bytes(), "text/html".spec_bytes()),
                "content-length".spec_bytes(),
                dec_str(out.len()),
            ),
            out,
        ),
        Some(hb) => {
            let f = cgi_fold(spec_lines(hb.0), 0, StatusCode::Okay, fresh_headers(), false);
            let hs2 = if !f.2 {
                spec_set(f.1, "content-type".spec_bytes(), "text/html".spec_bytes())
            } else {
                f.1
            };
            (f.0, spec_set(hs2, "content-length".spec_bytes(), dec_str(hb.1.len())), hb.1)
        },
    }
}

/// The lowercase names the output parser compares against.
pub proof fn lemma_cgi_tokens()
    ensures
        lower("status".spec_bytes()) == "status".spec_bytes(),
{
    reveal_strlit("status");
    vstd::string::is_ascii_spec_bytes("status");
    assert(lower("status".spec_bytes()) =~= "status".spec_bytes());
}

impl CgiExecutor {
    /// Parses a script's output: header lines up to the first blank line,
    /// then the body; without a separator the whole output is an HTML
    /// body.
    pub fn parse_cgi_output(output: &[u8]) -> (r: Result<Response, ServerError>)
        ensures
            r matches Ok(resp) && {
                let sp = spec_parse_cgi(output@);
                &&& resp.status == sp.0
                &&& resp.headers@ == sp.1
                &&& resp.body@ == sp.2
                &&& resp.headers.wf()
            },
    {
        proof {
            lemma_cgi_tokens();
            crate::headers::lemma_header_tokens();
            crate::response::lemma_response_tokens();
            lemma_find_sub_props(output@, crlf2(), 0);
            lemma_find_sub_props(output@, seq![10u8, 10u8], 0);
        }
        let olen = output.len();
        let sep4 = crate::codec::crlf2_bytes();
        let mut sep2: Vec<u8> = Vec::new();
        sep2.push(10);
        sep2.push(10);
        proof {
            assert(sep2@ =~= seq![10u8, 10u8]);
        }
        let (head, body): (Vec<u8>, Vec<u8>) = match find(output, sep4.as_slice()) {
            Some(p) => {
                let h = to_vec(&output[0..p]);
                let b = to_vec(&output[p + 4..olen]);
                proof {
                    assert(h@ =~= output@.subrange(0, p as int));
                    assert(b@ =~= output@.subrange(p + 4, output@.len() as int));
                }
                (h, b)
            },
            None => match find(output, sep2.as_slice()) {
                Some(p) => {
                    let h = to_vec(&output[0..p]);
                    let b = to_vec(&output[p + 2..olen]);
                    proof {
                        assert(h@ =~= output@.subrange(0, p as int));
                        assert(b@ =~= output@.subrange(p + 2, output@.len() as int));
                    }
                    (h, b)
                },
                None => {
                    let resp = Response::ok().content_type("text/html".as_bytes()).body(
                        to_vec(output),
                    );
                    return Ok(resp);
                },
            },
        };
        let mut resp = Response::new(StatusCode::Okay);
        let mut status = StatusCode::Okay;
        let mut has_ct = false;
        let ls = lines(head.as_slice());
        let ghost lsv = ls@.map_values(|v: Vec<u8>| v@);
        let mut i: usize = 0;
        while i < ls.len()
            invariant
                i <= ls.len(),
                lsv == ls@.map_values(|v: Vec<u8>| v@),
                lsv.len() == ls@.len(),
                resp.headers.wf(),
                cgi_fold(lsv, 0, StatusCode::Okay, fresh_headers(), false) == cgi_fold(
                    lsv,
                    i as int,
                    status,
                    resp.headers@,
                    has_ct,
                ),
            decreases ls.len() - i,
        {
            let l = &ls[i];
            proof {
                lemma_find_byte_props(l@, 58, 0);
            }
            match index_of(l.as_slice(), 58) {
                None => {},
                Some(c) => {
                    let llen = l.len();
                    let name = trim(&l.as_slice()[0..c]);
                    let value = trim(&l.as_slice()[c + 1..llen]);
                    proof {
                        assert(name@ == spec_trim(lsv[i as int].subrange(0, c as int)));
                        assert(value@ == spec_trim(lsv[i as int].subrange(
                            c + 1,
                            lsv[i as int].len() as int,
                        )));
                    }
                    let lname = to_lower(name.as_slice());
                    let ghost st0 = status;
                    if bytes_eq(lname.as_slice(), "status".as_bytes()) {
                        match next_token(value.as_slice(), 0) {
                            Some(t) => {
                                match parse_dec(t.0.as_slice()) {
                                    Some(code) => {
                                        if code <= 65535 {
                                            match StatusCode::from_code(code as u16) {
                                                Some(s) => {
                                                    status = s;
                                                },
                                                None => {},
                                            }
                                        }
                                    },
                                    None => {},
                                }
                            },
                            None => {},
                        }
                        proof {
                            assert(status == spec_status_of(value@, st0));
                        }
                    } else if bytes_eq(lname.as_slice(), "content-type".as_bytes()) {
                        resp.headers.set("Content-Type".as_bytes(), value.as_slice());
                        has_ct = true;
                    } else if bytes_eq(lname.as_slice(), "location".as_bytes()) {
                        resp.headers.set("Location".as_bytes(), value.as_slice());
                        if matches!(status, StatusCode::Okay) {
                            status = StatusCode::Found;
                        }
                    } else {
                        resp.headers.set(name.as_slice(), value.as_slice());
                    }
                },
            }
            i = i + 1;
        }
        if !has_ct {
            resp.headers.set("Content-Type".as_bytes(), "text/html".as_bytes());
        }
        let blen = body.len();
        let cl = fmt_dec(blen as u64);
        resp.headers.set("Content-Length".as_bytes(), cl.as_slice());
        resp.status = status;
        resp.body = body;
        Ok(resp)
    }

    /// Re-serializes the decoded query pairs as `k=v` joined with `&`.
    pub fn build_query_string(query: &Vec<(Vec<u8>, Vec<u8>)>) -> (r: Vec<u8>)
        ensures
            r@ == qs_join(qview(query@), 0),
    {
        let ghost q = qview(query@);
        let mut out: Vec<u8> = Vec::new();
        let mut i: usize = 0;
        while i < query.len()
            invariant
                i <= query@.len(),
                q == qview(query@),
                q.len() == query@.len(),
                out@ + qs_join(q, i as int) == qs_join(q, 0),
            decreases query@.len() - i,
        {
            out.extend_from_slice(query[i].0.as_slice());
            out.push(61);
            out.extend_from_slice(query[i].1.as_slice());
            if i + 1 < query.len() {
                out.push(38);
            }
            proof {
                assert(out@ + qs_join(q, i + 1) =~= qs_join(q, 0));
            }
            i = i + 1;
        }
        out
    }

    /// Builds the CGI/1.1 environment for a request and script path.
    pub fn build_env(request: &Request, script_path: &[u8]) -> (r: Vec<(Vec<u8>, Vec<u8>)>)
        ensures
            qview(r@) == spec_build_env(*request, script_path@),
    {
        let mut env: Vec<(Vec<u8>, Vec<u8>)> = Vec::new();
        proof {
            assert(qview(env@) =~= Seq::<(Seq<u8>, Seq<u8>)>::empty());
        }
        env_set(
            &mut env,
            to_vec("REQUEST_METHOD".as_bytes()),
            to_vec(request.method.as_str().as_bytes()),
        );
        env_set(&mut env, to_vec("SCRIPT_FILENAME".as_bytes()), to_vec(script_path));
        env_set(&mut env, to_vec("SCRIPT_NAME".as_bytes()), to_vec(request.path.as_slice()));
        env_set(&mut env, to_vec("PATH_INFO".as_bytes()), to_vec(request.path.as_slice()));
        env_set(&mut env, to_vec("QUERY_STRING".as_bytes()), Self::build_query_string(&request.query));
        env_set(&mut env, to_vec("SERVER_PROTOCOL".as_bytes()), to_vec(request.version.as_slice()));
        env_set(
            &mut env,
            to_vec("SERVER_SOFTWARE".as_bytes()),
            to_vec("localhost/0.1.0".as_bytes()),
        );
        env_set(&mut env, to_vec("GATEWAY_INTERFACE".as_bytes()), to_vec("CGI/1.1".as_bytes()));
        match request.content_type() {
            Some(ct) => {
                env_set(&mut env, to_vec("CONTENT_TYPE".as_bytes()), ct);
            },
            None => {},
        }
        match request.content_length() {
            Some(cl) => {
                env_set(&mut env, to_vec("CONTENT_LENGTH".as_bytes()), fmt_dec(cl as u64));
            },
            None => {},
        }
        let hs = request.headers.iter();
        let ghost m = request.headers@;
        let ghost e9 = qview(env@);
        let mut i: usize = 0;
        while i < hs.len()
            invariant
                i <= hs@.len(),
                m == request.headers@,
                m == hs@.map_values(|e: crate::headers::HeaderEntry| e@),
                m.len() == hs@.len(),
                env_header_fold(m, 0, e9) == env_header_fold(m, i as int, qview(env@)),
            decreases hs@.len() - i,
        {
            let e = &hs[i];
            proof {
                assert(e@ == m[i as int]);
            }
            if e.values.len() > 0 {
                let nm = env_name_of(e.name.as_slice());
                let v0 = to_vec(e.values[0].as_slice());
                proof {
                    assert(v0@ == m[i as int].1[0]);
                }
                env_set(&mut env, nm, v0);
            }
            i = i + 1;
        }
        match request.host() {
            Some(h) => {
                env_set(&mut env, to_vec("HTTP_HOST".as_bytes()), to_vec(h.as_slice()));
                proof {
                    lemma_find_byte_props(h@, 58, 0);
                }
                let hlen = h.len();
                let hostname: Vec<u8> = match index_of(h.as_slice(), 58) {
                    Some(c) => {
                        let v = to_vec(&h.as_slice()[0..c]);
                        proof {
                            assert(v@ =~= h@.subrange(0, c as int));
                        }
                        v
                    },
                    None => to_vec(h.as_slice()),
                };
                env_set(&mut env, to_vec("SERVER_NAME".as_bytes()), hostname);
            },
            None => {},
        }
        env
    }
}

} // verus!
