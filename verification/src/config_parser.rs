//! The configuration text parser: nginx-like `server { ... }` blocks with
//! nested `location <path> { ... }` blocks.
//!
//! The low-level readers carry exact contracts; the block parsers promise
//! the structural invariants the rest of the crate relies on: a parsed
//! configuration has at least one server, every server has ports and
//! routes, and every route allows at least one method.

use vstd::prelude::*;
use vstd::string::StringSliceAdditionalSpecFns;

use crate::bytes::{
    bytes_eq, dec_opt, first_non_ws, is_ws, is_ws_byte, next_token, parse_dec, spec_trim, to_vec,
    trim,
};
use crate::error::ServerError;
use crate::method::Method;
use crate::route::Route;
use crate::server_config::{Config, ServerConfig};

verus! {

/// A byte that ends a word: whitespace, braces, or a semicolon.
pub open spec fn is_word_end(b: u8) -> bool {
    is_ws(b) || b == 123 || b == 125 || b == 59
}

/// First index at or after `i` that ends a word.
pub open spec fn word_end(s: Seq<u8>, i: int) -> int
    decreases s.len() - i,
{
    if i < 0 || i >= s.len() {
        s.len() as int
    } else if is_word_end(s[i]) {
        i
    } else {
        word_end(s, i + 1)
    }
}

/// A byte that ends a value: line end, semicolon, or a brace.
pub open spec fn is_value_end(b: u8) -> bool {
    b == 10 || b == 13 || b == 59 || b == 123 || b == 125
}

/// First index at or after `i` that ends a value.
pub open spec fn value_end(s: Seq<u8>, i: int) -> int
    decreases s.len() - i,
{
    if i < 0 || i >= s.len() {
        s.len() as int
    } else if is_value_end(s[i]) {
        i
    } else {
        value_end(s, i + 1)
    }
}

/// The size a `client_max_body_size` value denotes: a decimal number with
/// an optional K, M or G suffix; the empty value is zero.
pub open spec fn spec_size(s: Seq<u8>) -> Option<int> {
    let t = spec_trim(s);
    if t.len() == 0 {
        Some(0)
    } else {
        let last = t[t.len() - 1];
        let mult: int = if last == 75 || last == 107 {
            1024
        } else if last == 77 || last == 109 {
            1048576
        } else if last == 71 || last == 103 {
            1073741824
        } else {
            1
        };
        let num = if mult == 1 {
            t
        } else {
            t.subrange(0, t.len() - 1)
        };
        match dec_opt(num) {
            Some(n) => if n * mult <= usize::MAX {
                Some(n * mult)
            } else {
                None
            },
            None => None,
        }
    }
}

/// The trimmed value starting at `pos`, as `read_value` returns it.
pub open spec fn spec_value(content: Seq<u8>, pos: int) -> Seq<u8> {
    spec_trim(content.subrange(pos, value_end(content, pos)))
}

/// The position just past a value and its terminating semicolon, as
/// `read_value` returns it.
pub open spec fn spec_value_next(content: Seq<u8>, pos: int) -> int {
    let ve = value_end(content, pos);
    ve + if ve < content.len() && content[ve] == 59 {
        1int
    } else {
        0int
    }
}

/// A route as `location` blocks start it: the given path, no methods yet,
/// the default index, nothing else.
pub open spec fn init_route_spec(path: Seq<u8>) -> crate::route::RouteSpec {
    crate::route::RouteSpec {
        path,
        methods: Seq::empty(),
        root: None,
        index: Some("index.html".spec_bytes()),
        autoindex: false,
        redirect: None,
        cgi: Seq::empty(),
        upload_dir: None,
    }
}

/// The default route of a server that configures none: the root path,
/// GET only, the server's root directory.
pub open spec fn default_route_spec(root: Seq<u8>) -> crate::route::RouteSpec {
    crate::route::RouteSpec {
        path: "/".spec_bytes(),
        methods: seq![Method::Get],
        root: Some(root),
        index: Some("index.html".spec_bytes()),
        autoindex: false,
        redirect: None,
        cgi: Seq::empty(),
        upload_dir: None,
    }
}

/// A server as `server` blocks start it: every default, no routes yet.
pub open spec fn init_server_spec() -> crate::server_config::ServerSpec {
    crate::server_config::ServerSpec {
        server_name: "localhost".spec_bytes(),
        host: "127.0.0.1".spec_bytes(),
        ports: seq![8080u16],
        root: "./www".spec_bytes(),
        client_max_body_size: 10485760,
        error_pages: Seq::empty(),
        routes: Seq::empty(),
        timeout: 60,
    }
}

/// The server a configuration without `server` blocks denotes.
pub open spec fn default_server_spec() -> crate::server_config::ServerSpec {
    crate::server_config::ServerSpec {
        server_name: "localhost".spec_bytes(),
        host: "127.0.0.1".spec_bytes(),
        ports: seq![8080u16],
        root: "./www".spec_bytes(),
        client_max_body_size: 10485760,
        error_pages: Seq::empty(),
        routes: seq![
            crate::route::RouteSpec {
                path: "/".spec_bytes(),
                methods: seq![Method::Get],
                root: None,
                index: Some("index.html".spec_bytes()),
                autoindex: false,
                redirect: None,
                cgi: Seq::empty(),
                upload_dir: None,
            },
        ],
        timeout: 60,
    }
}

/// The methods named in a whitespace-separated list appended to `ms`,
/// unknown names and duplicates skipped, scanning from `from`.
pub open spec fn methods_of(ms: Seq<Method>, value: Seq<u8>, from: int) -> Seq<Method>
    decreases value.len() - from,
{
    if from < 0 || from > value.len() {
        ms
    } else {
        let a = first_non_ws(value, from);
        if a >= value.len() {
            ms
        } else {
            let e = crate::bytes::tok_end(value, a);
            let ms2 = match crate::method::spec_parse_method(value.subrange(a, e)) {
                Some(m) => if ms.contains(m) {
                    ms
                } else {
                    ms.push(m)
                },
                None => ms,
            };
            if e <= from || e > value.len() {
                ms2
            } else {
                methods_of(ms2, value, e)
            }
        }
    }
}

/// Index of the error-page entry for a code at or after `i`.
pub open spec fn ep_idx_from(eps: Seq<(u16, Seq<u8>)>, code: u16, i: int) -> Option<int>
    decreases eps.len() - i,
{
    if i < 0 || i >= eps.len() {
        None
    } else if eps[i].0 == code {
        Some(i)
    } else {
        ep_idx_from(eps, code, i + 1)
    }
}

/// The error pages after binding a code to a page, replacing any earlier
/// binding.
pub open spec fn spec_ep_set(eps: Seq<(u16, Seq<u8>)>, code: u16, page: Seq<u8>) -> Seq<
    (u16, Seq<u8>),
> {
    match ep_idx_from(eps, code, 0) {
        Some(i) => eps.update(i, (code, page)),
        None => eps.push((code, page)),
    }
}

/// What `ep_idx_from` says about its result.
pub proof fn lemma_ep_idx_props(eps: Seq<(u16, Seq<u8>)>, code: u16, i: int)
    requires
        0 <= i,
    ensures
        match ep_idx_from(eps, code, i) {
            Some(k) => i <= k < eps.len() && eps[k].0 == code && forall|j: int|
                i <= j < k ==> eps[j].0 != code,
            None => forall|j: int| i <= j < eps.len() ==> eps[j].0 != code,
        },
    decreases eps.len() - i,
{
    if i < eps.len() && eps[i].0 != code {
        lemma_ep_idx_props(eps, code, i + 1);
    }
}

/// A route after its block closes: GET is granted when no method was
/// named.
pub open spec fn finish_route(rt: crate::route::RouteSpec) -> crate::route::RouteSpec {
    if rt.methods.len() == 0 {
        crate::route::RouteSpec { methods: seq![Method::Get], ..rt }
    } else {
        rt
    }
}

/// A server after its block closes: a default root route is added when
/// no location was given.
pub open spec fn finish_server(s: crate::server_config::ServerSpec) -> crate::server_config::ServerSpec {
    if s.routes.len() == 0 {
        crate::server_config::ServerSpec { routes: seq![default_route_spec(s.root)], ..s }
    } else {
        s
    }
}

/// The state change one `location` directive makes: the new route and
/// the next scan position; `None` on a malformed directive.  `p` is the
/// directive word's start and `we` its end.
pub open spec fn location_directive(
    content: Seq<u8>,
    p: int,
    we: int,
    rt: crate::route::RouteSpec,
) -> Option<(crate::route::RouteSpec, int)> {
    let word = content.subrange(p, we);
    let d = first_non_ws(content, we);
    let v = spec_value(content, d);
    let np = spec_value_next(content, d);
    if word == "methods".spec_bytes() || word == "allow_methods".spec_bytes() {
        Some((crate::route::RouteSpec { methods: methods_of(rt.methods, v, 0), ..rt }, np))
    } else if word == "root".spec_bytes() {
        Some((crate::route::RouteSpec { root: Some(v), ..rt }, np))
    } else if word == "index".spec_bytes() {
        Some((crate::route::RouteSpec { index: Some(v), ..rt }, np))
    } else if word == "autoindex".spec_bytes() {
        Some(
            (
                crate::route::RouteSpec {
                    autoindex: v == "on".spec_bytes() || v == "true".spec_bytes(),
                    ..rt
                },
                np,
            ),
        )
    } else if word == "return".spec_bytes() || word == "redirect".spec_bytes() {
        Some(
            (
                crate::route::RouteSpec {
                    redirect: Some((v, word == "redirect".spec_bytes())),
                    ..rt
                },
                np,
            ),
        )
    } else if word == "cgi".spec_bytes() {
        let ee = word_end(content, d);
        let ext = content.subrange(d, ee);
        let hp = first_non_ws(content, ee);
        let handler = spec_value(content, hp);
        let np2 = spec_value_next(content, hp);
        Some(
            (
                crate::route::RouteSpec {
                    cgi: crate::request::spec_qinsert(rt.cgi, ext, handler),
                    ..rt
                },
                np2,
            ),
        )
    } else if word == "upload_dir".spec_bytes() {
        Some((crate::route::RouteSpec { upload_dir: Some(v), ..rt }, np))
    } else {
        Some(
            (
                rt,
                if np > p {
                    np
                } else {
                    p + 1
                },
            ),
        )
    }
}

/// The directives of a `location` block folded from `pos` (just after
/// its opening brace) onto `rt`: the finished route and the position just
/// past the closing brace; `None` on a malformed block.
pub open spec fn location_loop(content: Seq<u8>, pos: int, rt: crate::route::RouteSpec) -> Option<
    (crate::route::RouteSpec, int),
>
    decreases content.len() - pos,
{
    if pos < 0 || pos > content.len() {
        None
    } else {
        let p = first_non_ws(content, pos);
        if p >= content.len() {
            Some((finish_route(rt), p))
        } else if content[p] == 125 {
            Some((finish_route(rt), p + 1))
        } else {
            let we = word_end(content, p);
            if we == p {
                if p + 1 <= pos || p + 1 > content.len() {
                    None
                } else {
                    location_loop(content, p + 1, rt)
                }
            } else {
                match location_directive(content, p, we, rt) {
                    None => None,
                    Some((rt2, np)) => if np <= pos || np > content.len() {
                        None
                    } else {
                        location_loop(content, np, rt2)
                    },
                }
            }
        }
    }
}

/// One scan step of a location block: a well-placed directive advances
/// the fold.
proof fn lemma_location_loop_step(
    content: Seq<u8>,
    pos0: int,
    rt: crate::route::RouteSpec,
    rt2: crate::route::RouteSpec,
    np: int,
)
    requires
        0 <= pos0 <= content.len(),
        ({
            let p = first_non_ws(content, pos0);
            &&& p < content.len()
            &&& content[p] != 125
            &&& word_end(content, p) != p
            &&& location_directive(content, p, word_end(content, p), rt) == Some((rt2, np))
        }),
        np > pos0,
        np <= content.len(),
    ensures
        location_loop(content, pos0, rt) == location_loop(content, np, rt2),
{
}

/// The state change one `server` directive makes: the new server, the
/// new default-port flag, and the next scan position; `None` on a
/// malformed directive.
pub open spec fn server_directive(
    content: Seq<u8>,
    p: int,
    we: int,
    s: crate::server_config::ServerSpec,
    pd: bool,
) -> Option<(crate::server_config::ServerSpec, bool, int)> {
    let word = content.subrange(p, we);
    let d = first_non_ws(content, we);
    let v = spec_value(content, d);
    let np = spec_value_next(content, d);
    if word == "listen".spec_bytes() {
        match crate::bytes::dec_opt(v) {
            Some(x) => if x <= 65535 {
                let base: Seq<u16> = if pd {
                    Seq::empty()
                } else {
                    s.ports
                };
                let ports2 = if base.contains(x as u16) {
                    base
                } else {
                    base.push(x as u16)
                };
                Some((crate::server_config::ServerSpec { ports: ports2, ..s }, false, np))
            } else {
                Some((s, pd, np))
            },
            None => Some((s, pd, np)),
        }
    } else if word == "server_name".spec_bytes() {
        Some((crate::server_config::ServerSpec { server_name: v, ..s }, pd, np))
    } else if word == "host".spec_bytes() {
        Some((crate::server_config::ServerSpec { host: v, ..s }, pd, np))
    } else if word == "root".spec_bytes() {
        Some((crate::server_config::ServerSpec { root: v, ..s }, pd, np))
    } else if word == "client_max_body_size".spec_bytes() {
        match spec_size(v) {
            Some(size) => Some(
                (crate::server_config::ServerSpec { client_max_body_size: size, ..s }, pd, np),
            ),
            None => None,
        }
    } else if word == "timeout".spec_bytes() {
        let t: int = match crate::bytes::dec_opt(v) {
            Some(x) => x,
            None => 60,
        };
        Some((crate::server_config::ServerSpec { timeout: t, ..s }, pd, np))
    } else if word == "error_page".spec_bytes() {
        let ce = word_end(content, d);
        let code_word = content.subrange(d, ce);
        let vp = first_non_ws(content, ce);
        let page = spec_value(content, vp);
        let np2 = spec_value_next(content, vp);
        let eps2 = match crate::bytes::dec_opt(code_word) {
            Some(c) => if c <= 65535 {
                spec_ep_set(s.error_pages, c as u16, page)
            } else {
                s.error_pages
            },
            None => s.error_pages,
        };
        Some((crate::server_config::ServerSpec { error_pages: eps2, ..s }, pd, np2))
    } else if word == "location".spec_bytes() {
        let pe = word_end(content, d);
        let path = content.subrange(d, pe);
        let b = first_non_ws(content, pe);
        if b >= content.len() || content[b] != 123 {
            None
        } else {
            match location_loop(content, b + 1, init_route_spec(path)) {
                None => None,
                Some((rt, np2)) => {
                    let rt2 = if rt.root is None {
                        crate::route::RouteSpec { root: Some(s.root), ..rt }
                    } else {
                        rt
                    };
                    Some(
                        (
                            crate::server_config::ServerSpec { routes: s.routes.push(rt2), ..s },
                            pd,
                            np2,
                        ),
                    )
                },
            }
        }
    } else {
        Some(
            (
                s,
                pd,
                if np > p {
                    np
                } else {
                    p + 1
                },
            ),
        )
    }
}

/// The directives of a `server` block folded from `pos` (just after its
/// opening brace) onto `s`: the finished server and the position just
/// past the closing brace; `None` on a malformed block.  `pd` records
/// that the port list is still the untouched default, which the first
/// `listen` replaces.
pub open spec fn server_loop(
    content: Seq<u8>,
    pos: int,
    s: crate::server_config::ServerSpec,
    pd: bool,
) -> Option<(crate::server_config::ServerSpec, int)>
    decreases content.len() - pos,
{
    if pos < 0 || pos > content.len() {
        None
    } else {
        let p = first_non_ws(content, pos);
        if p >= content.len() {
            Some((finish_server(s), p))
        } else if content[p] == 125 {
            Some((finish_server(s), p + 1))
        } else {
            let we = word_end(content, p);
            if we == p {
                if p + 1 <= pos || p + 1 > content.len() {
                    None
                } else {
                    server_loop(content, p + 1, s, pd)
                }
            } else {
                match server_directive(content, p, we, s, pd) {
                    None => None,
                    Some((s2, pd2, np)) => if np <= pos || np > content.len() {
                        None
                    } else {
                        server_loop(content, np, s2, pd2)
                    },
                }
            }
        }
    }
}

/// One scan step of a server block: a well-placed directive advances the
/// fold.
proof fn lemma_server_loop_step(
    content: Seq<u8>,
    pos0: int,
    s: crate::server_config::ServerSpec,
    pd: bool,
    s2: crate::server_config::ServerSpec,
    pd2: bool,
    np: int,
)
    requires
        0 <= pos0 <= content.len(),
        ({
            let p = first_non_ws(content, pos0);
            &&& p < content.len()
            &&& content[p] != 125
            &&& word_end(content, p) != p
            &&& server_directive(content, p, word_end(content, p), s, pd) == Some((s2, pd2, np))
        }),
        np > pos0,
        np <= content.len(),
    ensures
        server_loop(content, pos0, s, pd) == server_loop(content, np, s2, pd2),
{
}

/// A failed directive fails the block.
proof fn lemma_server_loop_fail(
    content: Seq<u8>,
    pos0: int,
    s: crate::server_config::ServerSpec,
    pd: bool,
)
    requires
        0 <= pos0 <= content.len(),
        ({
            let p = first_non_ws(content, pos0);
            &&& p < content.len()
            &&& content[p] != 125
            &&& word_end(content, p) != p
            &&& server_directive(content, p, word_end(content, p), s, pd) is None
        }),
    ensures
        server_loop(content, pos0, s, pd) is None,
{
}

/// The configuration after the remaining text: a default server when
/// none was parsed.
pub open spec fn finish_config(acc: Seq<crate::server_config::ServerSpec>) -> Seq<
    crate::server_config::ServerSpec,
> {
    if acc.len() == 0 {
        seq![default_server_spec()]
    } else {
        acc
    }
}

/// The `server { ... }` blocks of the text folded from `pos` onto `acc`;
/// `None` on a malformed block.
pub open spec fn config_loop(
    content: Seq<u8>,
    pos: int,
    acc: Seq<crate::server_config::ServerSpec>,
) -> Option<Seq<crate::server_config::ServerSpec>>
    decreases content.len() - pos,
{
    if pos < 0 || pos > content.len() {
        None
    } else {
        let p = first_non_ws(content, pos);
        if p >= content.len() {
            Some(finish_config(acc))
        } else {
            let we = word_end(content, p);
            if we == p {
                if we + 1 <= pos || we + 1 > content.len() {
                    None
                } else {
                    config_loop(content, we + 1, acc)
                }
            } else {
                let word = content.subrange(p, we);
                if word == "server".spec_bytes() {
                    let b = first_non_ws(content, we);
                    if b >= content.len() || content[b] != 123 {
                        None
                    } else {
                        match server_loop(content, b + 1, init_server_spec(), true) {
                            None => None,
                            Some((srv, np)) => if np <= pos || np > content.len() {
                                None
                            } else {
                                config_loop(content, np, acc.push(srv))
                            },
                        }
                    }
                } else {
                    if we <= pos || we > content.len() {
                        None
                    } else {
                        config_loop(content, we, acc)
                    }
                }
            }
        }
    }
}

/// The whole text's parse: the servers it denotes, or `None` when a
/// block is malformed.
pub open spec fn spec_parse_config(content: Seq<u8>) -> Option<
    Seq<crate::server_config::ServerSpec>,
> {
    config_loop(content, 0, Seq::empty())
}

/// The configuration text parser.
pub struct ConfigParser;

impl ConfigParser {
    /// Whether `b` ends a word.
    fn is_word_end_byte(b: u8) -> (r: bool)
        ensures
            r == is_word_end(b),
    {
        b == 9 || b == 10 || b == 11 || b == 12 || b == 13 || b == 32 || b == 123 || b == 125
            || b == 59
    }

    /// Whether `b` ends a value.
    fn is_value_end_byte(b: u8) -> (r: bool)
        ensures
            r == is_value_end(b),
    {
        b == 10 || b == 13 || b == 59 || b == 123 || b == 125
    }

    /// Advances past ASCII whitespace.
    pub fn skip_whitespace(content: &[u8], pos: usize) -> (r: usize)
        requires
            pos <= content@.len(),
        ensures
            r as int == first_non_ws(content@, pos as int),
            pos <= r <= content@.len(),
    {
        let mut i: usize = pos;
        while i < content.len() && is_ws_byte(content[i])
            invariant
                pos <= i <= content.len(),
                first_non_ws(content@, pos as int) == first_non_ws(content@, i as int),
            decreases content.len() - i,
        {
            i = i + 1;
        }
        i
    }

    /// Reads a word: bytes up to whitespace, a brace or a semicolon.
    pub fn read_word(content: &[u8], pos: usize) -> (r: (Vec<u8>, usize))
        requires
            pos <= content@.len(),
        ensures
            r.1 as int == word_end(content@, pos as int),
            r.0@ == content@.subrange(pos as int, word_end(content@, pos as int)),
            pos <= r.1 <= content@.len(),
    {
        let mut i: usize = pos;
        while i < content.len() && !Self::is_word_end_byte(content[i])
            invariant
                pos <= i <= content.len(),
                word_end(content@, pos as int) == word_end(content@, i as int),
            decreases content.len() - i,
        {
            i = i + 1;
        }
        let w = to_vec(&content[pos..i]);
        proof {
            assert(w@ =~= content@.subrange(pos as int, i as int));
        }
        (w, i)
    }

    /// Reads a value: bytes up to a line end, semicolon or brace, trimmed;
    /// a terminating semicolon is consumed.
    pub fn read_value(content: &[u8], pos: usize) -> (r: (Vec<u8>, usize))
        requires
            pos <= content@.len(),
        ensures
            r.0@ == spec_trim(
                content@.subrange(pos as int, value_end(content@, pos as int)),
            ),
            r.1 as int == value_end(content@, pos as int) + (
            if value_end(content@, pos as int) < content@.len() && content@[value_end(
                content@,
                pos as int,
            )] == 59 {
                1int
            } else {
                0int
            }),
            pos <= r.1 <= content@.len(),
    {
        let mut i: usize = pos;
        while i < content.len() && !Self::is_value_end_byte(content[i])
            invariant
                pos <= i <= content.len(),
                value_end(content@, pos as int) == value_end(content@, i as int),
            decreases content.len() - i,
        {
            i = i + 1;
        }
        let v = trim(&content[pos..i]);
        proof {
            assert(content@.subrange(pos as int, i as int) =~= content@.subrange(
                pos as int,
                value_end(content@, pos as int),
            ));
        }
        if i < content.len() && content[i] == 59 {
            (v, i + 1)
        } else {
            (v, i)
        }
    }

    /// Parses a size value with an optional K, M or G suffix.
    pub fn parse_size(s: &[u8]) -> (r: Result<usize, ServerError>)
        ensures
            match r {
                Ok(v) => spec_size(s@) == Some(v as int),
                Err(e) => spec_size(s@) == None::<int> && e is Config,
            },
    {
        let t = trim(s);
        if t.len() == 0 {
            return Ok(0);
        }
        let last = t[t.len() - 1];
        let mult: usize = if last == 75 || last == 107 {
            1024
        } else if last == 77 || last == 109 {
            1048576
        } else if last == 71 || last == 103 {
            1073741824
        } else {
            1
        };
        let num: Vec<u8> = if mult == 1 {
            t
        } else {
            let tl = t.len();
            let v = to_vec(&t.as_slice()[0..tl - 1]);
            proof {
                assert(v@ =~= t@.subrange(0, t@.len() - 1));
            }
            v
        };
        match parse_dec(num.as_slice()) {
            Some(n) => {
                match n.checked_mul(mult) {
                    Some(v) => Ok(v),
                    None => Err(ServerError::Config(to_vec("invalid size".as_bytes()))),
                }
            },
            None => Err(ServerError::Config(to_vec("invalid size".as_bytes()))),
        }
    }

    /// Parses a whole configuration text: every `server { ... }` block in
    /// order, with a default server when none is given.
    pub fn parse_string(content: &[u8]) -> (r: Result<Config, ServerError>)
        ensures
            match r {
                Ok(c) => {
                    &&& spec_parse_config(content@) == Some(
                        c.servers@.map_values(|sc: ServerConfig| sc@),
                    )
                    &&& c.servers@.len() > 0
                    &&& forall|i: int|
                        0 <= i < c.servers@.len() ==> server_block_wf(#[trigger] c.servers@[i])
                },
                Err(e) => spec_parse_config(content@) == None::<
                    Seq<crate::server_config::ServerSpec>,
                > && e is Config,
            },
    {
        let mut config = Config::new();
        let mut pos: usize = 0;
        proof {
            assert(config.servers@.map_values(|sc: ServerConfig| sc@) =~= Seq::<
                crate::server_config::ServerSpec,
            >::empty());
        }
        loop
            invariant
                pos <= content@.len(),
                spec_parse_config(content@) == config_loop(
                    content@,
                    pos as int,
                    config.servers@.map_values(|sc: ServerConfig| sc@),
                ),
                forall|i: int|
                    0 <= i < config.servers@.len() ==> server_block_wf(
                        #[trigger] config.servers@[i],
                    ),
            decreases content.len() - pos,
        {
            let ghost pos0 = pos as int;
            let ghost acc = config.servers@.map_values(|sc: ServerConfig| sc@);
            let next = Self::skip_whitespace(content, pos);
            if next >= content.len() {
                if config.servers.len() == 0 {
                    config.servers.push(Self::default_server());
                    proof {
                        assert(config.servers@.map_values(|sc: ServerConfig| sc@)
                            =~~= finish_config(acc));
                    }
                } else {
                    proof {
                        assert(config.servers@.map_values(|sc: ServerConfig| sc@)
                            =~~= finish_config(acc));
                    }
                }
                return Ok(config);
            }
            let (word, wpos) = Self::read_word(content, next);
            if word.len() == 0 {
                proof {
                    assert(word_end(content@, next as int) == next);
                    assert(next < content@.len());
                }
                pos = wpos + 1;
                continue ;
            }
            proof {
                assert(word@ == content@.subrange(next as int, wpos as int));
                assert(wpos > next);
            }
            if bytes_eq(word.as_slice(), "server".as_bytes()) {
                let bpos = Self::skip_whitespace(content, wpos);
                if bpos >= content.len() || content[bpos] != 123 {
                    return Err(ServerError::Config(to_vec(
                        "expected a block after server".as_bytes(),
                    )));
                }
                let (server, npos) = match Self::parse_server_block(content, bpos + 1) {
                    Ok(sp) => sp,
                    Err(e) => {
                        return Err(e);
                    },
                };
                config.servers.push(server);
                proof {
                    assert(config.servers@.map_values(|sc: ServerConfig| sc@) =~= acc.push(
                        server@,
                    ));
                }
                pos = npos;
            } else {
                pos = wpos;
            }
        }
    }

    /// A server with default settings and its default route.
    fn default_server() -> (r: ServerConfig)
        ensures
            r@ == default_server_spec(),
            server_block_wf(r),
    {
        let r = ServerConfig::new();
        proof {
            assert(r.routes@[0].methods@.len() > 0);
            assert(r@ =~~= default_server_spec());
        }
        r
    }

    /// Closes a server block: a default root route is added when no
    /// location was given.
    fn finish_server_block(server: ServerConfig) -> (r: ServerConfig)
        requires
            server.ports@.len() > 0,
            forall|i: int| 0 <= i < server.routes@.len() ==> route_wf(#[trigger] server.routes@[i]),
        ensures
            r@ == finish_server(server@),
            server_block_wf(r),
    {
        let ghost s0 = server@;
        let mut server = server;
        if server.routes.len() == 0 {
            let mut route = Route::new("/".as_bytes());
            route.root = Some(to_vec(server.root.as_slice()));
            server.routes.push(route);
            proof {
                assert(route@ =~~= default_route_spec(s0.root));
                assert(server@ =~~= finish_server(s0));
            }
        } else {
            proof {
                assert(server@ =~~= finish_server(s0));
            }
        }
        server
    }

    /// Parses the directives of a `server` block, from just after its
    /// opening brace to just after its closing brace.
    #[verifier::rlimit(100)]
    pub fn parse_server_block(content: &[u8], pos: usize) -> (r: Result<
        (ServerConfig, usize),
        ServerError,
    >)
        requires
            pos <= content@.len(),
        ensures
            match r {
                Ok(sp) => {
                    &&& server_loop(content@, pos as int, init_server_spec(), true) == Some(
                        (sp.0@, sp.1 as int),
                    )
                    &&& server_block_wf(sp.0)
                    &&& pos <= sp.1 <= content@.len()
                },
                Err(e) => server_loop(content@, pos as int, init_server_spec(), true) == None::<
                    (crate::server_config::ServerSpec, int),
                > && e is Config,
            },
    {
        let mut server = ServerConfig::new();
        server.routes = Vec::new();
        let mut ports_default = true;
        proof {
            assert(server@ =~~= init_server_spec());
        }
        let start = pos;
        let mut pos = pos;
        loop
            invariant
                start <= pos,
                pos <= content@.len(),
                server.ports@.len() > 0,
                forall|i: int|
                    0 <= i < server.routes@.len() ==> route_wf(#[trigger] server.routes@[i]),
                server_loop(content@, start as int, init_server_spec(), true) == server_loop(
                    content@,
                    pos as int,
                    server@,
                    ports_default,
                ),
            decreases content.len() - pos,
        {
            let ghost pos0 = pos as int;
            let ghost s0 = server@;
            let ghost pd0 = ports_default;
            pos = Self::skip_whitespace(content, pos);
            let ghost pskip = pos as int;
            if pos >= content.len() {
                let finished = Self::finish_server_block(server);
                proof {
                    assert(server_loop(content@, pos0, s0, pd0) == Some((finish_server(s0), pskip)));
                }
                return Ok((finished, pos));
            }
            if content[pos] == 125 {
                let after = pos + 1;
                let finished = Self::finish_server_block(server);
                proof {
                    assert(server_loop(content@, pos0, s0, pd0) == Some(
                        (finish_server(s0), pskip + 1),
                    ));
                }
                return Ok((finished, after));
            }
            let (word, wpos) = Self::read_word(content, pos);
            if word.len() == 0 {
                proof {
                    assert(word_end(content@, pskip) == pskip);
                    assert(server_loop(content@, pos0, s0, pd0) == server_loop(
                        content@,
                        pskip + 1,
                        s0,
                        pd0,
                    ));
                }
                pos = wpos + 1;
                continue ;
            }
            proof {
                assert(word@ == content@.subrange(pskip, wpos as int));
                assert(wpos > pskip);
            }
            let dpos = Self::skip_whitespace(content, wpos);
            if bytes_eq(word.as_slice(), "listen".as_bytes()) {
                let (value, npos) = Self::read_value(content, dpos);
                match parse_dec(value.as_slice()) {
                    Some(p) => {
                        if p <= 65535 {
                            let port = p as u16;
                            if ports_default {
                                server.ports.clear();
                                ports_default = false;
                            }
                            proof {
                                if pd0 {
                                    assert(server.ports@ =~= Seq::<u16>::empty());
                                }
                            }
                            if !Self::port_listed(&server.ports, port) {
                                server.ports.push(port);
                            }
                        }
                    },
                    None => {},
                }
                pos = npos;
                proof {
                    assert(server@ =~~= crate::server_config::ServerSpec {
                        ports: server@.ports,
                        ..s0
                    });
                    assert(server_loop(content@, pos0, s0, pd0) == server_loop(
                        content@,
                        pos as int,
                        server@,
                        ports_default,
                    ));
                }
            } else if bytes_eq(word.as_slice(), "server_name".as_bytes()) {
                let (value, npos) = Self::read_value(content, dpos);
                server.server_name = value;
                pos = npos;
                proof {
                    assert(server_directive(content@, pskip, wpos as int, s0, pd0) == Some(
                        (server@, ports_default, pos as int),
                    ));
                    lemma_server_loop_step(
                        content@,
                        pos0,
                        s0,
                        pd0,
                        server@,
                        ports_default,
                        pos as int,
                    );
                }
            } else if bytes_eq(word.as_slice(), "host".as_bytes()) {
                let (value, npos) = Self::read_value(content, dpos);
                server.host = value;
                pos = npos;
                proof {
                    assert(server_directive(content@, pskip, wpos as int, s0, pd0) == Some(
                        (server@, ports_default, pos as int),
                    ));
                    lemma_server_loop_step(
                        content@,
                        pos0,
                        s0,
                        pd0,
                        server@,
                        ports_default,
                        pos as int,
                    );
                }
            } else if bytes_eq(word.as_slice(), "root".as_bytes()) {
                let (value, npos) = Self::read_value(content, dpos);
                server.root = value;
                pos = npos;
                proof {
                    assert(server_directive(content@, pskip, wpos as int, s0, pd0) == Some(
                        (server@, ports_default, pos as int),
                    ));
                    lemma_server_loop_step(
                        content@,
                        pos0,
                        s0,
                        pd0,
                        server@,
                        ports_default,
                        pos as int,
                    );
                }
            } else if bytes_eq(word.as_slice(), "client_max_body_size".as_bytes()) {
                let (value, npos) = Self::read_value(content, dpos);
                match Self::parse_size(value.as_slice()) {
                    Ok(size) => {
                        server.client_max_body_size = size;
                    },
                    Err(e) => {
                        proof {
                            assert(server_directive(content@, pskip, wpos as int, s0, pd0)
                                is None);
                            lemma_server_loop_fail(content@, pos0, s0, pd0);
                        }
                        return Err(e);
                    },
                }
                pos = npos;
                proof {
                    assert(server_directive(content@, pskip, wpos as int, s0, pd0) == Some(
                        (server@, ports_default, pos as int),
                    ));
                    lemma_server_loop_step(
                        content@,
                        pos0,
                        s0,
                        pd0,
                        server@,
                        ports_default,
                        pos as int,
                    );
                }
            } else if bytes_eq(word.as_slice(), "timeout".as_bytes()) {
                let (value, npos) = Self::read_value(content, dpos);
                match parse_dec(value.as_slice()) {
                    Some(t) => {
                        server.timeout = t as u64;
                    },
                    None => {
                        server.timeout = 60;
                    },
                }
                pos = npos;
                proof {
                    assert(server_directive(content@, pskip, wpos as int, s0, pd0) == Some(
                        (server@, ports_default, pos as int),
                    ));
                    lemma_server_loop_step(
                        content@,
                        pos0,
                        s0,
                        pd0,
                        server@,
                        ports_default,
                        pos as int,
                    );
                }
            } else if bytes_eq(word.as_slice(), "error_page".as_bytes()) {
                let (code_word, cpos) = Self::read_word(content, dpos);
                let vpos = Self::skip_whitespace(content, cpos);
                let (page, npos) = Self::read_value(content, vpos);
                proof {
                    assert(code_word@ == content@.subrange(dpos as int, cpos as int));
                }
                match parse_dec(code_word.as_slice()) {
                    Some(c) => {
                        if c <= 65535 {
                            Self::set_error_page(&mut server.error_pages, c as u16, page);
                        }
                    },
                    None => {},
                }
                pos = npos;
                proof {
                    assert(server_directive(content@, pskip, wpos as int, s0, pd0) == Some(
                        (server@, ports_default, pos as int),
                    ));
                    lemma_server_loop_step(
                        content@,
                        pos0,
                        s0,
                        pd0,
                        server@,
                        ports_default,
                        pos as int,
                    );
                }
            } else if bytes_eq(word.as_slice(), "location".as_bytes()) {
                let (path, ppos) = Self::read_word(content, dpos);
                let bpos = Self::skip_whitespace(content, ppos);
                proof {
                    assert(path@ == content@.subrange(dpos as int, ppos as int));
                }
                if bpos >= content.len() || content[bpos] != 123 {
                    proof {
                        assert(server_directive(content@, pskip, wpos as int, s0, pd0) is None);
                        lemma_server_loop_fail(content@, pos0, s0, pd0);
                    }
                    return Err(ServerError::Config(to_vec(
                        "expected a block after location path".as_bytes(),
                    )));
                }
                let (mut route, npos) = match Self::parse_location_block(
                    content,
                    bpos + 1,
                    path.as_slice(),
                ) {
                    Ok(rp) => rp,
                    Err(e) => {
                        proof {
                            assert(server_directive(content@, pskip, wpos as int, s0, pd0)
                                is None);
                            lemma_server_loop_fail(content@, pos0, s0, pd0);
                        }
                        return Err(e);
                    },
                };
                let ghost rt_parsed = route@;
                if route.root.is_none() {
                    route.root = Some(to_vec(server.root.as_slice()));
                    proof {
                        assert(route@ =~~= crate::route::RouteSpec {
                            root: Some(s0.root),
                            ..rt_parsed
                        });
                    }
                }
                server.routes.push(route);
                proof {
                    assert(server.routes@.map_values(|rt: Route| rt@) =~= s0.routes.push(route@));
                }
                pos = npos;
                proof {
                    assert(server@ =~~= crate::server_config::ServerSpec {
                        routes: s0.routes.push(route@),
                        ..s0
                    });
                    assert(server_loop(content@, pos0, s0, pd0) == server_loop(
                        content@,
                        pos as int,
                        server@,
                        ports_default,
                    ));
                }
            } else {
                let (_value, npos) = Self::read_value(content, dpos);
                pos = if npos > pos {
                    npos
                } else {
                    pos + 1
                };
                proof {
                    assert(server_directive(content@, pskip, wpos as int, s0, pd0) == Some(
                        (server@, ports_default, pos as int),
                    ));
                    lemma_server_loop_step(
                        content@,
                        pos0,
                        s0,
                        pd0,
                        server@,
                        ports_default,
                        pos as int,
                    );
                }
            }
        }
    }

    /// Parses the directives of a `location` block, from just after its
    /// opening brace to just after its closing brace.
    pub fn parse_location_block(content: &[u8], pos: usize, path: &[u8]) -> (r: Result<
        (Route, usize),
        ServerError,
    >)
        requires
            pos <= content@.len(),
        ensures
            match r {
                Ok(rp) => {
                    &&& location_loop(content@, pos as int, init_route_spec(path@)) == Some(
                        (rp.0@, rp.1 as int),
                    )
                    &&& route_wf(rp.0)
                    &&& rp.0.path@ == path@
                    &&& pos <= rp.1 <= content@.len()
                },
                Err(e) => location_loop(content@, pos as int, init_route_spec(path@)) == None::<
                    (crate::route::RouteSpec, int),
                > && e is Config,
            },
    {
        let mut route = Route::new(path);
        route.methods = Vec::new();
        proof {
            assert(route@ =~~= init_route_spec(path@));
        }
        let start = pos;
        let mut pos = pos;
        loop
            invariant
                start <= pos,
                pos <= content@.len(),
                route.path@ == path@,
                location_loop(content@, start as int, init_route_spec(path@)) == location_loop(
                    content@,
                    pos as int,
                    route@,
                ),
            decreases content.len() - pos,
        {
            let ghost pos0 = pos as int;
            let ghost rt0 = route@;
            pos = Self::skip_whitespace(content, pos);
            let ghost pskip = pos as int;
            if pos >= content.len() {
                if route.methods.len() == 0 {
                    route.methods.push(Method::Get);
                }
                proof {
                    assert(route@ =~~= finish_route(rt0));
                    assert(location_loop(content@, pos0, rt0) == Some((finish_route(rt0), pskip)));
                }
                return Ok((route, pos));
            }
            if content[pos] == 125 {
                let after = pos + 1;
                if route.methods.len() == 0 {
                    route.methods.push(Method::Get);
                }
                proof {
                    assert(route@ =~~= finish_route(rt0));
                    assert(location_loop(content@, pos0, rt0) == Some(
                        (finish_route(rt0), pskip + 1),
                    ));
                }
                return Ok((route, after));
            }
            let (word, wpos) = Self::read_word(content, pos);
            if word.len() == 0 {
                proof {
                    assert(word_end(content@, pskip) == pskip);
                    assert(location_loop(content@, pos0, rt0) == location_loop(
                        content@,
                        pskip + 1,
                        rt0,
                    ));
                }
                pos = wpos + 1;
                continue ;
            }
            proof {
                assert(word@ == content@.subrange(pskip, wpos as int));
                assert(wpos > pskip);
            }
            let dpos = Self::skip_whitespace(content, wpos);
            if bytes_eq(word.as_slice(), "methods".as_bytes()) || bytes_eq(
                word.as_slice(),
                "allow_methods".as_bytes(),
            ) {
                let (value, npos) = Self::read_value(content, dpos);
                Self::add_methods(&mut route.methods, value.as_slice());
                pos = npos;
                proof {
                    assert(route@ =~~= crate::route::RouteSpec {
                        methods: methods_of(rt0.methods, value@, 0),
                        ..rt0
                    });
                    assert(location_directive(content@, pskip, wpos as int, rt0) == Some(
                        (route@, pos as int),
                    ));
                    lemma_location_loop_step(content@, pos0, rt0, route@, pos as int);
                }
            } else if bytes_eq(word.as_slice(), "root".as_bytes()) {
                let (value, npos) = Self::read_value(content, dpos);
                route.root = Some(value);
                pos = npos;
                proof {
                    assert(location_directive(content@, pskip, wpos as int, rt0) == Some(
                        (route@, pos as int),
                    ));
                    lemma_location_loop_step(content@, pos0, rt0, route@, pos as int);
                }
            } else if bytes_eq(word.as_slice(), "index".as_bytes()) {
                let (value, npos) = Self::read_value(content, dpos);
                route.index = Some(value);
                pos = npos;
                proof {
                    assert(location_directive(content@, pskip, wpos as int, rt0) == Some(
                        (route@, pos as int),
                    ));
                    lemma_location_loop_step(content@, pos0, rt0, route@, pos as int);
                }
            } else if bytes_eq(word.as_slice(), "autoindex".as_bytes()) {
                let (value, npos) = Self::read_value(content, dpos);
                route.autoindex = bytes_eq(value.as_slice(), "on".as_bytes()) || bytes_eq(
                    value.as_slice(),
                    "true".as_bytes(),
                );
                pos = npos;
                proof {
                    assert(location_directive(content@, pskip, wpos as int, rt0) == Some(
                        (route@, pos as int),
                    ));
                    lemma_location_loop_step(content@, pos0, rt0, route@, pos as int);
                }
            } else if bytes_eq(word.as_slice(), "return".as_bytes()) || bytes_eq(
                word.as_slice(),
                "redirect".as_bytes(),
            ) {
                let permanent = bytes_eq(word.as_slice(), "redirect".as_bytes());
                let (target, npos) = Self::read_value(content, dpos);
                route.redirect = Some((target, permanent));
                pos = npos;
                proof {
                    assert(location_directive(content@, pskip, wpos as int, rt0) == Some(
                        (route@, pos as int),
                    ));
                    lemma_location_loop_step(content@, pos0, rt0, route@, pos as int);
                }
            } else if bytes_eq(word.as_slice(), "cgi".as_bytes()) {
                let (ext, epos) = Self::read_word(content, dpos);
                let hpos = Self::skip_whitespace(content, epos);
                let (handler, npos) = Self::read_value(content, hpos);
                proof {
                    assert(ext@ == content@.subrange(dpos as int, epos as int));
                }
                Self::set_cgi(&mut route.cgi, ext, handler);
                pos = npos;
                proof {
                    assert(route@ =~~= crate::route::RouteSpec {
                        cgi: crate::request::spec_qinsert(rt0.cgi, ext@, handler@),
                        ..rt0
                    });
                    assert(location_directive(content@, pskip, wpos as int, rt0) == Some(
                        (route@, pos as int),
                    ));
                    lemma_location_loop_step(content@, pos0, rt0, route@, pos as int);
                }
            } else if bytes_eq(word.as_slice(), "upload_dir".as_bytes()) {
                let (value, npos) = Self::read_value(content, dpos);
                route.upload_dir = Some(value);
                pos = npos;
                proof {
                    assert(location_directive(content@, pskip, wpos as int, rt0) == Some(
                        (route@, pos as int),
                    ));
                    lemma_location_loop_step(content@, pos0, rt0, route@, pos as int);
                }
            } else {
                let (_value, npos) = Self::read_value(content, dpos);
                pos = if npos > pos {
                    npos
                } else {
                    pos + 1
                };
                proof {
                    assert(location_directive(content@, pskip, wpos as int, rt0) == Some(
                        (route@, pos as int),
                    ));
                    lemma_location_loop_step(content@, pos0, rt0, route@, pos as int);
                }
            }
        }
    }

    /// Adds each method named in a whitespace-separated list, skipping
    /// unknown names and duplicates.
    fn add_methods(methods: &mut Vec<Method>, value: &[u8])
        ensures
            final(methods)@ == methods_of(old(methods)@, value@, 0),
    {
        let ghost ms0 = methods@;
        let mut from: usize = 0;
        loop
            invariant
                from <= value@.len(),
                methods_of(ms0, value@, 0) == methods_of(methods@, value@, from as int),
            decreases value.len() - from,
        {
            let ghost ms_prev = methods@;
            let (tok, next) = match next_token(value, from) {
                None => {
                    proof {
                        assert(methods_of(ms_prev, value@, from as int) == ms_prev);
                    }
                    return ;
                },
                Some(t) => t,
            };
            match Method::from_bytes(tok.as_slice()) {
                Some(m) => {
                    if !Self::method_listed(methods, m) {
                        methods.push(m);
                    }
                },
                None => {},
            }
            if next <= from {
                proof {
                    assert(methods_of(ms_prev, value@, from as int) == methods@);
                }
                return ;
            }
            proof {
                assert(methods_of(ms_prev, value@, from as int) == methods_of(
                    methods@,
                    value@,
                    next as int,
                ));
            }
            from = next;
        }
    }

    /// Whether the list holds the method.
    fn method_listed(methods: &Vec<Method>, m: Method) -> (r: bool)
        ensures
            r == methods@.contains(m),
    {
        let mut i: usize = 0;
        while i < methods.len()
            invariant
                i <= methods@.len(),
                forall|j: int| 0 <= j < i ==> methods@[j] != m,
            decreases methods@.len() - i,
        {
            if methods[i] == m {
                proof {
                    assert(methods@.contains(m)) by {
                        assert(methods@[i as int] == m);
                    }
                }
                return true;
            }
            i = i + 1;
        }
        proof {
            if methods@.contains(m) {
                let j = choose|j: int| 0 <= j < methods@.len() && methods@[j] == m;
                assert(methods@[j] != m);
            }
        }
        false
    }

    /// Whether the list holds the port.
    fn port_listed(ports: &Vec<u16>, port: u16) -> (r: bool)
        ensures
            r == ports@.contains(port),
    {
        let mut i: usize = 0;
        while i < ports.len()
            invariant
                i <= ports@.len(),
                forall|j: int| 0 <= j < i ==> ports@[j] != port,
            decreases ports@.len() - i,
        {
            if ports[i] == port {
                proof {
                    assert(ports@.contains(port)) by {
                        assert(ports@[i as int] == port);
                    }
                }
                return true;
            }
            i = i + 1;
        }
        proof {
            if ports@.contains(port) {
                let j = choose|j: int| 0 <= j < ports@.len() && ports@[j] == port;
                assert(ports@[j] != port);
            }
        }
        false
    }

    /// Binds a status code to a page path, replacing any earlier binding.
    fn set_error_page(eps: &mut Vec<(u16, Vec<u8>)>, code: u16, page: Vec<u8>)
        ensures
            crate::server_config::eps_view(final(eps)@) == spec_ep_set(
                crate::server_config::eps_view(old(eps)@),
                code,
                page@,
            ),
    {
        let ghost m0 = crate::server_config::eps_view(eps@);
        proof {
            lemma_ep_idx_props(m0, code, 0);
        }
        let mut i: usize = 0;
        let n = eps.len();
        while i < n
            invariant
                i <= n,
                n == eps@.len(),
                m0 == crate::server_config::eps_view(eps@),
                ep_idx_from(m0, code, 0) == ep_idx_from(m0, code, i as int),
            decreases n - i,
        {
            if eps[i].0 == code {
                proof {
                    assert(m0[i as int].0 == code);
                    assert(ep_idx_from(m0, code, i as int) == Some(i as int));
                }
                let _ = eps.remove(i);
                eps.insert(i, (code, page));
                proof {
                    assert(crate::server_config::eps_view(eps@) =~~= spec_ep_set(m0, code, page@));
                }
                return ;
            }
            i = i + 1;
        }
        proof {
            assert(ep_idx_from(m0, code, eps@.len() as int) == None::<int>);
        }
        eps.push((code, page));
        proof {
            assert(crate::server_config::eps_view(eps@) =~~= spec_ep_set(m0, code, page@));
        }
    }

    /// Binds an extension to an interpreter, replacing any earlier
    /// binding.
    fn set_cgi(cgis: &mut Vec<(Vec<u8>, Vec<u8>)>, ext: Vec<u8>, handler: Vec<u8>)
        ensures
            crate::request::qview(final(cgis)@) == crate::request::spec_qinsert(
                crate::request::qview(old(cgis)@),
                ext@,
                handler@,
            ),
    {
        let ghost m0 = crate::request::qview(cgis@);
        proof {
            crate::request::lemma_qidx_props(m0, ext@, 0);
        }
        let mut i: usize = 0;
        let n = cgis.len();
        while i < n
            invariant
                i <= n,
                n == cgis@.len(),
                m0 == crate::request::qview(cgis@),
                crate::request::qidx_from(m0, ext@, 0) == crate::request::qidx_from(
                    m0,
                    ext@,
                    i as int,
                ),
            decreases n - i,
        {
            if bytes_eq(cgis[i].0.as_slice(), ext.as_slice()) {
                proof {
                    assert(m0[i as int].0 == ext@);
                    assert(crate::request::qidx_from(m0, ext@, i as int) == Some(i as int));
                }
                let _ = cgis.remove(i);
                cgis.insert(i, (ext, handler));
                proof {
                    assert(crate::request::qview(cgis@) =~~= crate::request::spec_qinsert(
                        m0,
                        ext@,
                        handler@,
                    ));
                }
                return ;
            }
            i = i + 1;
        }
        proof {
            assert(crate::request::qidx_from(m0, ext@, cgis@.len() as int) == None::<int>);
        }
        cgis.push((ext, handler));
        proof {
            assert(crate::request::qview(cgis@) =~~= crate::request::spec_qinsert(
                m0,
                ext@,
                handler@,
            ));
        }
    }
}

/// The structural invariant of a parsed route: it allows some method.
pub open spec fn route_wf(r: Route) -> bool {
    r.methods@.len() > 0
}

/// The structural invariant of a parsed server: it has ports and routes,
/// and each route allows some method.
pub open spec fn server_block_wf(s: ServerConfig) -> bool {
    &&& s.ports@.len() > 0
    &&& s.routes@.len() > 0
    &&& forall|i: int| 0 <= i < s.routes@.len() ==> route_wf(#[trigger] s.routes@[i])
}

} // verus!
