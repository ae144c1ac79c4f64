//! The wire codec: request completeness detection, request parsing,
//! chunked-body decoding, and request serialization.

use vstd::prelude::*;
use vstd::string::StringSliceAdditionalSpecFns;

use crate::bytes::{
    is_match_at, contains, contains_sub, dec_opt, find, find_sub, find_byte, first_non_ws,
    hex_val, index_of, is_prefix, lemma_find_sub_props, lines, lower, next_token, parse_dec,
    parse_hex, spec_lines, spec_trim, starts_with, to_lower, to_vec, tok_end, trim,
};
use crate::error::ServerError;
use crate::headers::{spec_add, Headers, HeaderSeq};
use crate::method::{spec_parse_method, Method};
use crate::request::{spec_target_path, spec_target_query, QuerySeq, Request};
use crate::utf8::{is_valid_utf8, validate_utf8};

verus! {

/// The header terminator: CR LF CR LF.
pub open spec fn crlf2() -> Seq<u8> {
    seq![13u8, 10u8, 13u8, 10u8]
}

/// The terminal chunk marker: `0` CR LF CR LF.
pub open spec fn chunk_end_marker() -> Seq<u8> {
    seq![48u8, 13u8, 10u8, 13u8, 10u8]
}

/// Builds the header terminator as bytes.
pub fn crlf2_bytes() -> (r: Vec<u8>)
    ensures
        r@ == crlf2(),
{
    let mut v: Vec<u8> = Vec::new();
    v.push(13);
    v.push(10);
    v.push(13);
    v.push(10);
    proof {
        assert(v@ =~= crlf2());
    }
    v
}

/// Builds the terminal chunk marker as bytes.
fn chunk_end_bytes() -> (r: Vec<u8>)
    ensures
        r@ == chunk_end_marker(),
{
    let mut v: Vec<u8> = Vec::new();
    v.push(48);
    v.push(13);
    v.push(10);
    v.push(13);
    v.push(10);
    proof {
        assert(v@ =~= chunk_end_marker());
    }
    v
}

/// Index of the end of the header block: the first CR LF CR LF.
pub open spec fn spec_header_end(d: Seq<u8>) -> Option<int> {
    find_sub(d, crlf2())
}

/// The buffer holds a complete header block.
pub open spec fn spec_headers_complete(d: Seq<u8>) -> bool {
    contains_sub(d, crlf2())
}

/// The content length announced by the first `content-length` line in the
/// buffer, scanned case-insensitively; `None` when no such line exists or
/// its value does not parse.
pub open spec fn cl_scan(ls: Seq<Seq<u8>>, i: int) -> Option<int>
    decreases ls.len() - i,
{
    if i < 0 || i >= ls.len() {
        None
    } else if is_prefix("content-length:".spec_bytes(), lower(ls[i])) {
        dec_opt(spec_trim(ls[i].subrange(15, ls[i].len() as int)))
    } else {
        cl_scan(ls, i + 1)
    }
}

/// The announced content length of a raw buffer.
pub open spec fn spec_get_content_length(d: Seq<u8>) -> Option<int> {
    cl_scan(spec_lines(d), 0)
}

/// Whether some line announces a chunked transfer encoding.
pub open spec fn chunked_scan(ls: Seq<Seq<u8>>, i: int) -> bool
    decreases ls.len() - i,
{
    if i < 0 || i >= ls.len() {
        false
    } else if is_prefix("transfer-encoding:".spec_bytes(), lower(ls[i])) && contains_sub(
        lower(ls[i]),
        "chunked".spec_bytes(),
    ) {
        true
    } else {
        chunked_scan(ls, i + 1)
    }
}

/// Whether the raw buffer announces a chunked transfer encoding.
pub open spec fn spec_raw_is_chunked(d: Seq<u8>) -> bool {
    chunked_scan(spec_lines(d), 0)
}

/// One complete request sits in the buffer: headers complete, and the
/// body complete per content length, chunked terminator, or absent body.
pub open spec fn spec_is_complete(d: Seq<u8>) -> bool {
    match spec_header_end(d) {
        None => false,
        Some(he) => {
            let body_start = he + 4;
            match spec_get_content_length(d) {
                Some(cl) => d.len() >= body_start + cl,
                None => if spec_raw_is_chunked(d) {
                    contains_sub(d.subrange(body_start, d.len() as int), chunk_end_marker())
                } else {
                    true
                },
            }
        },
    }
}

/// Splits a header line at its first colon into a lowercased trimmed name
/// and a trimmed value.
pub open spec fn spec_header_line(l: Seq<u8>) -> Option<(Seq<u8>, Seq<u8>)> {
    match find_byte(l, 58) {
        Some(c) => Some(
            (
                lower(spec_trim(l.subrange(0, c))),
                spec_trim(l.subrange(c + 1, l.len() as int)),
            ),
        ),
        None => None,
    }
}

/// Folds the header lines (from index `i` on) into a header map.
pub open spec fn fold_headers(ls: Seq<Seq<u8>>, i: int, acc: HeaderSeq) -> HeaderSeq
    decreases ls.len() - i,
{
    if i < 0 || i >= ls.len() {
        acc
    } else {
        let next = match spec_header_line(ls[i]) {
            Some(nv) => spec_add(acc, nv.0, nv.1),
            None => acc,
        };
        fold_headers(ls, i + 1, next)
    }
}

/// The three whitespace-separated tokens of a request line, if present.
pub open spec fn spec_tokens3(l: Seq<u8>) -> Option<(Seq<u8>, Seq<u8>, Seq<u8>)> {
    let a0 = first_non_ws(l, 0);
    if a0 >= l.len() {
        None
    } else {
        let e0 = tok_end(l, a0);
        let a1 = first_non_ws(l, e0);
        if a1 >= l.len() {
            None
        } else {
            let e1 = tok_end(l, a1);
            let a2 = first_non_ws(l, e1);
            if a2 >= l.len() {
                None
            } else {
                let e2 = tok_end(l, a2);
                Some((l.subrange(a0, e0), l.subrange(a1, e1), l.subrange(a2, e2)))
            }
        }
    }
}

/// Everything a successful parse of a raw buffer determines: method, path,
/// query, version, headers and body.
pub type ParsedRequest = (Method, Seq<u8>, QuerySeq, Seq<u8>, HeaderSeq, Seq<u8>);

/// The parse of a raw buffer: `None` when the buffer is rejected.
pub open spec fn spec_parse(d: Seq<u8>) -> Option<ParsedRequest> {
    match spec_header_end(d) {
        None => None,
        Some(he) => {
            let head = d.subrange(0, he);
            if !is_valid_utf8(head) {
                None
            } else {
                let ls = spec_lines(head);
                if ls.len() == 0 {
                    None
                } else {
                    match spec_tokens3(ls[0]) {
                        None => None,
                        Some(t) => match spec_parse_method(t.0) {
                            None => None,
                            Some(m) => Some(
                                (
                                    m,
                                    spec_target_path(t.1),
                                    spec_target_query(t.1),
                                    t.2,
                                    fold_headers(ls, 1, Seq::empty()),
                                    d.subrange(he + 4, d.len() as int),
                                ),
                            ),
                        },
                    }
                }
            }
        },
    }
}

/// The request parser: completeness detection, parsing, chunked decoding.
pub struct RequestParser;

impl RequestParser {
    /// Whether the buffer holds a complete header block.
    pub fn has_complete_headers(data: &[u8]) -> (r: bool)
        ensures
            r == spec_headers_complete(data@),
    {
        let sep = crlf2_bytes();
        contains(data, sep.as_slice())
    }

    /// The announced content length, scanning the buffer's lines.
    pub fn get_content_length(data: &[u8]) -> (r: Option<usize>)
        ensures
            match r {
                Some(v) => spec_get_content_length(data@) == Some(v as int),
                None => spec_get_content_length(data@) == None::<int>,
            },
    {
        proof {
            lemma_codec_tokens();
        }
        let ls = lines(data);
        let ghost lsv = ls@.map_values(|v: Vec<u8>| v@);
        let mut i: usize = 0;
        while i < ls.len()
            invariant
                i <= ls.len(),
                lsv == ls@.map_values(|v: Vec<u8>| v@),
                lsv.len() == ls@.len(),
                cl_scan(lsv, 0) == cl_scan(lsv, i as int),
            decreases ls.len() - i,
        {
            let l = &ls[i];
            let ll = to_lower(l.as_slice());
            if starts_with(ll.as_slice(), "content-length:".as_bytes()) {
                let llen = l.len();
                let tail = trim(&l.as_slice()[15..llen]);
                proof {
                    assert("content-length:".spec_bytes().len() == 15);
                    assert(tail@ == spec_trim(lsv[i as int].subrange(
                        15,
                        lsv[i as int].len() as int,
                    )));
                }
                return parse_dec(tail.as_slice());
            }
            i = i + 1;
        }
        None
    }

    /// Whether the buffer's lines announce a chunked transfer encoding.
    pub fn is_chunked(data: &[u8]) -> (r: bool)
        ensures
            r == spec_raw_is_chunked(data@),
    {
        proof {
            lemma_codec_tokens();
        }
        let ls = lines(data);
        let ghost lsv = ls@.map_values(|v: Vec<u8>| v@);
        let mut i: usize = 0;
        while i < ls.len()
            invariant
                i <= ls.len(),
                lsv == ls@.map_values(|v: Vec<u8>| v@),
                lsv.len() == ls@.len(),
                chunked_scan(lsv, 0) == chunked_scan(lsv, i as int),
            decreases ls.len() - i,
        {
            let l = &ls[i];
            let ll = to_lower(l.as_slice());
            if starts_with(ll.as_slice(), "transfer-encoding:".as_bytes()) && contains(
                ll.as_slice(),
                "chunked".as_bytes(),
            ) {
                return true;
            }
            i = i + 1;
        }
        false
    }

    /// Whether one complete request sits in the buffer.
    pub fn is_complete(data: &[u8]) -> (r: bool)
        ensures
            r == spec_is_complete(data@),
    {
        let sep = crlf2_bytes();
        proof {
            lemma_find_sub_props(data@, crlf2(), 0);
        }
        let he = match find(data, sep.as_slice()) {
            None => {
                return false;
            },
            Some(he) => he,
        };
        let dlen = data.len();
        let body_start = he + 4;
        match Self::get_content_length(data) {
            Some(cl) => {
                cl <= dlen - body_start
            },
            None => {
                if Self::is_chunked(data) {
                    let marker = chunk_end_bytes();
                    let tail = &data[body_start..dlen];
                    proof {
                        assert(tail@ =~= data@.subrange(he + 4, data@.len() as int));
                    }
                    contains(tail, marker.as_slice())
                } else {
                    true
                }
            },
        }
    }

    /// Parses one complete request from the buffer.
    pub fn parse(data: &[u8]) -> (r: Result<Request, ServerError>)
        ensures
            match r {
                Ok(req) => {
                    &&& spec_parse(data@) == Some(
                        (
                            req.method,
                            req.path@,
                            req.query_view(),
                            req.version@,
                            req.headers@,
                            req.body@,
                        ),
                    )
                    &&& req.headers.wf()
                },
                Err(e) => spec_parse(data@) == None::<ParsedRequest> && e is Parse,
            },
    {
        let sep = crlf2_bytes();
        proof {
            lemma_find_sub_props(data@, crlf2(), 0);
        }
        let he = match find(data, sep.as_slice()) {
            None => {
                return Err(ServerError::Parse(to_vec("incomplete headers".as_bytes())));
            },
            Some(he) => he,
        };
        let head = &data[0..he];
        if !validate_utf8(head) {
            return Err(ServerError::Parse(to_vec("invalid utf-8 in request".as_bytes())));
        }
        let ls = lines(head);
        let ghost lsv = ls@.map_values(|v: Vec<u8>| v@);
        if ls.len() == 0 {
            return Err(ServerError::Parse(to_vec("missing request line".as_bytes())));
        }
        let rl = &ls[0];
        let (method_tok, p1) = match next_token(rl.as_slice(), 0) {
            None => {
                return Err(ServerError::Parse(to_vec("missing method".as_bytes())));
            },
            Some(t) => t,
        };
        let (target_tok, p2) = match next_token(rl.as_slice(), p1) {
            None => {
                proof {
                    assert(first_non_ws(rl@, p1 as int) == rl@.len());
                    assert(spec_tokens3(lsv[0]) is None);
                }
                return Err(ServerError::Parse(to_vec("missing path".as_bytes())));
            },
            Some(t) => t,
        };
        let (version_tok, _p3) = match next_token(rl.as_slice(), p2) {
            None => {
                proof {
                    assert(spec_tokens3(lsv[0]) is None);
                }
                return Err(ServerError::Parse(to_vec("missing version".as_bytes())));
            },
            Some(t) => t,
        };
        proof {
            assert(spec_tokens3(lsv[0]) == Some((method_tok@, target_tok@, version_tok@)));
        }
        let method = match Method::from_bytes(method_tok.as_slice()) {
            None => {
                return Err(ServerError::Parse(to_vec("invalid method".as_bytes())));
            },
            Some(m) => m,
        };
        let mut headers = Headers::new();
        let mut i: usize = 1;
        while i < ls.len()
            invariant
                1 <= i <= ls.len(),
                lsv == ls@.map_values(|v: Vec<u8>| v@),
                lsv.len() == ls@.len(),
                headers.wf(),
                fold_headers(lsv, 1, Seq::empty()) == fold_headers(lsv, i as int, headers@),
            decreases ls.len() - i,
        {
            let l = &ls[i];
            proof {
                crate::bytes::lemma_find_byte_props(l@, 58, 0);
            }
            match index_of(l.as_slice(), 58) {
                Some(c) => {
                    let llen = l.len();
                    let name = trim(&l.as_slice()[0..c]);
                    let value = trim(&l.as_slice()[c + 1..llen]);
                    proof {
                        assert(name@ == spec_trim(lsv[i as int].subrange(0, c as int)));
                        assert(value@ == spec_trim(lsv[i as int].subrange(
                            c + 1,
                            lsv[i as int].len() as int,
                        )));
                    }
                    headers.add(name.as_slice(), value.as_slice());
                    proof {
                        assert(spec_header_line(lsv[i as int]) == Some((lower(name@), value@)));
                    }
                },
                None => {
                    proof {
                        assert(spec_header_line(lsv[i as int]) is None);
                    }
                },
            }
            i = i + 1;
        }
        let dlen = data.len();
        let body = to_vec(&data[he + 4..dlen]);
        proof {
            assert(body@ =~= data@.subrange(he + 4, data@.len() as int));
        }
        let mut req = Request::new(method, target_tok.as_slice());
        req.version = version_tok;
        req.headers = headers;
        req.body = body;
        Ok(req)
    }

    /// Decodes a chunked body: `HEX CR LF BYTES CR LF` chunks, a zero
    /// size or the end of the buffer terminating.
    pub fn decode_chunked(data: &[u8]) -> (r: Result<Vec<u8>, ServerError>)
        ensures
            match r {
                Ok(out) => spec_decode_chunked(data@, 0) == Some(out@),
                Err(e) => spec_decode_chunked(data@, 0) == None::<Seq<u8>> && e is Parse,
            },
    {
        let mut out: Vec<u8> = Vec::new();
        let mut pos: usize = 0;
        while pos < data.len()
            invariant
                pos <= data.len(),
                match spec_decode_chunked(data@, 0) {
                    Some(whole) => match spec_decode_chunked(data@, pos as int) {
                        Some(rest) => whole == out@ + rest,
                        None => false,
                    },
                    None => spec_decode_chunked(data@, pos as int) is None,
                },
            decreases data.len() - pos,
        {
            let dlen = data.len();
            let rest = &data[pos..dlen];
            proof {
                lemma_find_sub_props(rest@, crlf(), 0);
            }
            let sep = crlf_bytes();
            let line_end = match find(rest, sep.as_slice()) {
                None => {
                    return Err(ServerError::Parse(to_vec("invalid chunked encoding".as_bytes())));
                },
                Some(le) => le,
            };
            let size_tok = trim(&rest[0..line_end]);
            proof {
                assert(rest@.subrange(0, line_end as int) =~= rest@.subrange(0, line_end as int));
            }
            let chunk_size = match parse_hex(size_tok.as_slice()) {
                None => {
                    return Err(ServerError::Parse(to_vec("invalid chunk size".as_bytes())));
                },
                Some(n) => n,
            };
            let p2 = pos + line_end + 2;
            if chunk_size == 0 {
                proof {
                    assert(spec_decode_chunked(data@, pos as int) == Some(Seq::<u8>::empty()));
                    assert(out@ + Seq::<u8>::empty() =~= out@);
                }
                return Ok(out);
            }
            if chunk_size > dlen || p2 > dlen - chunk_size {
                proof {
                    assert(p2 + chunk_size > data@.len());
                    assert(spec_decode_chunked(data@, pos as int) is None);
                }
                return Err(ServerError::Parse(to_vec("incomplete chunk".as_bytes())));
            }
            let chunk = &data[p2..p2 + chunk_size];
            out.extend_from_slice(chunk);
            let ghost next_spec: int = if p2 + chunk_size + 2 > data@.len() {
                data@.len() as int
            } else {
                p2 + chunk_size + 2
            };
            proof {
                assert(chunk@ =~= data@.subrange(p2 as int, p2 + chunk_size));
                assert(spec_decode_chunked(data@, pos as int) matches Some(rr) ==> rr == chunk@
                    + spec_decode_chunked(data@, next_spec).unwrap());
            }
            if dlen - (p2 + chunk_size) < 2 {
                proof {
                    assert(spec_decode_chunked(data@, data@.len() as int) == Some(
                        Seq::<u8>::empty(),
                    ));
                    assert(out@ + Seq::<u8>::empty() =~= out@);
                }
                pos = dlen;
            } else {
                pos = p2 + chunk_size + 2;
            }
        }
        proof {
            assert(spec_decode_chunked(data@, pos as int) == Some(Seq::<u8>::empty()));
            assert(out@ + Seq::<u8>::empty() =~= out@);
        }
        Ok(out)
    }
}

/// The decoded chunked body from index `i` on: each chunk is
/// `HEX CR LF BYTES CR LF`; a zero size or running past the end of the
/// buffer ends decoding; a missing line end, a bad size, or a short chunk
/// is `None`.
pub open spec fn spec_decode_chunked(d: Seq<u8>, i: int) -> Option<Seq<u8>>
    decreases d.len() - i,
{
    if i < 0 {
        None
    } else if i >= d.len() {
        Some(Seq::empty())
    } else {
        let rest = d.subrange(i, d.len() as int);
        match find_sub(rest, crlf()) {
            None => None,
            Some(le) => if le < 0 || le > rest.len() {
                None
            } else {
                let size_tok = spec_trim(rest.subrange(0, le));
                if !(size_tok.len() > 0 && crate::bytes::all_hex_digits(size_tok) && hex_val(
                    size_tok,
                ) <= usize::MAX) {
                    None
                } else {
                    let size = hex_val(size_tok) as int;
                    let p2 = i + le + 2;
                    if size == 0 {
                        Some(Seq::empty())
                    } else if p2 + size > d.len() {
                        None
                    } else {
                        let next = if p2 + size + 2 > d.len() {
                            d.len() as int
                        } else {
                            p2 + size + 2
                        };
                        match spec_decode_chunked(d, next) {
                            None => None,
                            Some(tail) => Some(d.subrange(p2, p2 + size) + tail),
                        }
                    }
                }
            },
        }
    }
}

/// The line terminator: CR LF.
pub open spec fn crlf() -> Seq<u8> {
    seq![13u8, 10u8]
}

/// Builds the line terminator as bytes.
fn crlf_bytes() -> (r: Vec<u8>)
    ensures
        r@ == crlf(),
{
    let mut v: Vec<u8> = Vec::new();
    v.push(13);
    v.push(10);
    proof {
        assert(v@ =~= crlf());
    }
    v
}

/// A well-formed wire line: non-empty and free of CR and LF.
pub open spec fn line_ok(l: Seq<u8>) -> bool {
    l.len() > 0 && forall|i: int| 0 <= i < l.len() ==> l[i] != 13 && l[i] != 10
}

/// Every line from index `i` on is well-formed.
pub open spec fn lines_ok(ls: Seq<Seq<u8>>, i: int) -> bool {
    forall|j: int| i <= j < ls.len() ==> line_ok(#[trigger] ls[j])
}

/// The lines from index `i` on, each followed by CR LF.
pub open spec fn join_lines(ls: Seq<Seq<u8>>, i: int) -> Seq<u8>
    decreases ls.len() - i,
{
    if i < 0 || i >= ls.len() {
        Seq::empty()
    } else {
        ls[i] + seq![13u8, 10u8] + join_lines(ls, i + 1)
    }
}

/// In well-formed lines joined with CR LF, followed by one blank line and
/// anything, the first CR LF CR LF sits exactly before the blank line.
pub proof fn lemma_first_separator(ls: Seq<Seq<u8>>, i: int, tail: Seq<u8>)
    requires
        0 <= i < ls.len(),
        lines_ok(ls, i),
    ensures
        find_sub(join_lines(ls, i) + seq![13u8, 10u8] + tail, crlf2()) == Some(
            join_lines(ls, i).len() - 2,
        ),
    decreases ls.len() - i,
{
    let l = ls[i];
    let h = join_lines(ls, i) + seq![13u8, 10u8] + tail;
    let jn = join_lines(ls, i);
    assert(jn == l + seq![13u8, 10u8] + join_lines(ls, i + 1));
    if i == ls.len() - 1 {
        assert(join_lines(ls, i + 1) =~= Seq::<u8>::empty());
        assert(h =~= l + (seq![13u8, 10u8, 13u8, 10u8] + tail));
        assert(is_match_at(h, crlf2(), l.len() as int)) by {
            assert forall|j: int| 0 <= j < 4 implies h[l.len() + j] == crlf2()[j] by {
                assert(h[l.len() + j] == (seq![13u8, 10u8, 13u8, 10u8] + tail)[j]);
            }
        }
        assert forall|k: int| 0 <= k < l.len() implies !is_match_at(h, crlf2(), k) by {
            assert(h[k] == l[k]);
            assert(l[k] != 13);
            if is_match_at(h, crlf2(), k) {
                assert(h[k + 0] == crlf2()[0]);
            }
        }
        crate::bytes::lemma_find_sub_from_some(h, crlf2(), 0, l.len() as int);
        assert(jn.len() - 2 == l.len());
    } else {
        let rest = join_lines(ls, i + 1) + seq![13u8, 10u8] + tail;
        lemma_first_separator(ls, i + 1, tail);
        let m = join_lines(ls, i + 1).len() - 2;
        assert(find_sub(rest, crlf2()) == Some(m));
        crate::bytes::lemma_find_sub_props(rest, crlf2(), 0);
        assert(h =~= l + seq![13u8, 10u8] + rest);
        let base = l.len() + 2;
        assert forall|x: int| 0 <= x < rest.len() implies h[base + x] == rest[x] by {
            assert(h[base + x] == (l + seq![13u8, 10u8] + rest)[base + x]);
        }
        assert(is_match_at(h, crlf2(), base + m)) by {
            assert forall|j: int| 0 <= j < 4 implies h[base + m + j] == crlf2()[j] by {
                assert(h[base + (m + j)] == rest[m + j]);
            }
        }
        assert forall|k: int| 0 <= k < base + m implies !is_match_at(h, crlf2(), k) by {
            if k < l.len() {
                assert(h[k] == l[k]);
                assert(l[k] != 13);
                if is_match_at(h, crlf2(), k) {
                    assert(h[k + 0] == crlf2()[0]);
                }
            } else if k == l.len() {
                let l2 = ls[i + 1];
                assert(l2.len() > 0 && l2[0] != 13);
                assert(rest[0] == l2[0]) by {
                    assert(join_lines(ls, i + 1) == l2 + seq![13u8, 10u8] + join_lines(
                        ls,
                        i + 2,
                    ));
                }
                assert(h[k + 2] == rest[0]);
                if is_match_at(h, crlf2(), k) {
                    assert(h[k + 2] == crlf2()[2]);
                }
            } else if k == l.len() + 1 {
                assert(h[k] == (l + seq![13u8, 10u8] + rest)[k]);
                assert(h[k] == 10);
                if is_match_at(h, crlf2(), k) {
                    assert(h[k + 0] == crlf2()[0]);
                }
            } else {
                if is_match_at(h, crlf2(), k) {
                    assert(is_match_at(rest, crlf2(), k - base)) by {
                        assert forall|j: int| 0 <= j < 4 implies rest[k - base + j] == crlf2()[j]
                            by {
                            assert(h[base + (k - base + j)] == rest[k - base + j]);
                            assert(h[k + j] == crlf2()[j]);
                        }
                    }
                    assert(k - base < m);
                    assert(!is_match_at(rest, crlf2(), k - base));
                }
            }
        }
        crate::bytes::lemma_find_sub_from_some(h, crlf2(), 0, base + m);
        assert(jn.len() == base + join_lines(ls, i + 1).len());
    }
}

/// Joining lines after an offset into a concatenation reaches the second
/// part.
pub proof fn lemma_join_offset(xs: Seq<Seq<u8>>, ys: Seq<Seq<u8>>, k: int)
    requires
        0 <= k <= ys.len(),
    ensures
        join_lines(xs + ys, xs.len() + k) == join_lines(ys, k),
    decreases ys.len() - k,
{
    if k < ys.len() {
        lemma_join_offset(xs, ys, k + 1);
        assert((xs + ys)[xs.len() + k] == ys[k]);
    } else {
        assert(join_lines(xs + ys, xs.len() + k) =~= Seq::<u8>::empty());
    }
}

/// Joining concatenated line lists concatenates the joins.
pub proof fn lemma_join_concat(xs: Seq<Seq<u8>>, ys: Seq<Seq<u8>>, i: int)
    requires
        0 <= i <= xs.len(),
    ensures
        join_lines(xs + ys, i) == join_lines(xs, i) + join_lines(ys, 0),
    decreases xs.len() - i,
{
    if i < xs.len() {
        lemma_join_concat(xs, ys, i + 1);
        assert((xs + ys)[i] == xs[i]);
        assert(join_lines(xs + ys, i) =~= join_lines(xs, i) + join_lines(ys, 0));
    } else {
        lemma_join_offset(xs, ys, 0);
        assert(join_lines(xs, i) =~= Seq::<u8>::empty());
        assert(join_lines(xs + ys, i) =~= join_lines(xs, i) + join_lines(ys, 0));
    }
}

/// The wire lines of one header entry: `name: value` per value.
pub open spec fn pair_lines(name: Seq<u8>, vals: Seq<Seq<u8>>, j: int) -> Seq<Seq<u8>>
    decreases vals.len() - j,
{
    if j < 0 || j >= vals.len() {
        Seq::empty()
    } else {
        seq![name + seq![58u8, 32u8] + vals[j]] + pair_lines(name, vals, j + 1)
    }
}

/// The wire lines of a header map from entry `i` on.
pub open spec fn wire_line_list(m: HeaderSeq, i: int) -> Seq<Seq<u8>>
    decreases m.len() - i,
{
    if i < 0 || i >= m.len() {
        Seq::empty()
    } else {
        pair_lines(m[i].0, m[i].1, 0) + wire_line_list(m, i + 1)
    }
}

/// One entry's wire form is its lines joined.
pub proof fn lemma_pairs_wire_join(name: Seq<u8>, vals: Seq<Seq<u8>>, j: int)
    requires
        0 <= j,
    ensures
        crate::headers::pairs_wire_from(name, vals, j) == join_lines(pair_lines(name, vals, j), 0),
    decreases vals.len() - j,
{
    if j < vals.len() {
        lemma_pairs_wire_join(name, vals, j + 1);
        let pls = pair_lines(name, vals, j);
        let line = name + seq![58u8, 32u8] + vals[j];
        assert(pls == seq![line] + pair_lines(name, vals, j + 1));
        lemma_join_offset(seq![line], pair_lines(name, vals, j + 1), 0);
        assert(pls[0] == line);
        assert(join_lines(pls, 0) =~= line + seq![13u8, 10u8] + join_lines(
            pair_lines(name, vals, j + 1),
            0,
        ));
        assert(crate::headers::pairs_wire_from(name, vals, j) =~= join_lines(pls, 0));
    } else {
        assert(join_lines(pair_lines(name, vals, j), 0) =~= Seq::<u8>::empty());
    }
}

/// A header map's wire form is its lines joined.
pub proof fn lemma_wire_join(m: HeaderSeq, i: int)
    requires
        0 <= i,
    ensures
        crate::headers::wire_from(m, i) == join_lines(wire_line_list(m, i), 0),
    decreases m.len() - i,
{
    if i < m.len() {
        lemma_wire_join(m, i + 1);
        lemma_pairs_wire_join(m[i].0, m[i].1, 0);
        lemma_join_concat(pair_lines(m[i].0, m[i].1, 0), wire_line_list(m, i + 1), 0);
    } else {
        assert(join_lines(wire_line_list(m, i), 0) =~= Seq::<u8>::empty());
    }
}

/// Every wire line of a wire-safe header map is well-formed.
pub proof fn lemma_wire_lines_ok(m: HeaderSeq, i: int)
    requires
        0 <= i,
        crate::headers::wire_safe(m),
    ensures
        lines_ok(wire_line_list(m, i), 0),
    decreases m.len() - i,
{
    if i < m.len() {
        lemma_wire_lines_ok(m, i + 1);
        lemma_pair_lines_ok(m[i].0, m[i].1, 0, m, i);
        let xs = pair_lines(m[i].0, m[i].1, 0);
        let ys = wire_line_list(m, i + 1);
        assert forall|j: int| 0 <= j < (xs + ys).len() implies line_ok(#[trigger] (xs + ys)[j])
            by {
            if j < xs.len() {
                assert((xs + ys)[j] == xs[j]);
            } else {
                assert((xs + ys)[j] == ys[j - xs.len()]);
            }
        }
    }
}

proof fn lemma_pair_lines_ok(name: Seq<u8>, vals: Seq<Seq<u8>>, j: int, m: HeaderSeq, i: int)
    requires
        0 <= j,
        0 <= i < m.len(),
        crate::headers::wire_safe(m),
        name == m[i].0,
        vals == m[i].1,
    ensures
        lines_ok(pair_lines(name, vals, j), 0),
    decreases vals.len() - j,
{
    if j < vals.len() {
        lemma_pair_lines_ok(name, vals, j + 1, m, i);
        let line = name + seq![58u8, 32u8] + vals[j];
        assert(line_ok(line)) by {
            assert forall|x: int| 0 <= x < line.len() implies line[x] != 13 && line[x] != 10 by {
                if x < name.len() {
                    assert(line[x] == m[i].0[x]);
                } else if x < name.len() + 2 {
                    assert(line[x] == seq![58u8, 32u8][x - name.len()]);
                } else {
                    assert(line[x] == m[i].1[j][x - name.len() - 2]);
                }
            }
        }
        let pls = pair_lines(name, vals, j);
        assert(pls == seq![line] + pair_lines(name, vals, j + 1));
        assert forall|x: int| 0 <= x < pls.len() implies line_ok(#[trigger] pls[x]) by {
            if x == 0 {
                assert(pls[x] == line);
            } else {
                assert(pls[x] == pair_lines(name, vals, j + 1)[x - 1]);
            }
        }
    }
}

// ---------------------------------------------------------------------------
// Request serialization and the parse round trip
// ---------------------------------------------------------------------------

/// The lines joined with CR LF separators between them, none trailing.
pub open spec fn sep_join(ls: Seq<Seq<u8>>, i: int) -> Seq<u8>
    decreases ls.len() - i,
{
    if i < 0 || i >= ls.len() {
        Seq::empty()
    } else if i == ls.len() - 1 {
        ls[i]
    } else {
        ls[i] + seq![13u8, 10u8] + sep_join(ls, i + 1)
    }
}

/// Joining with trailing terminators is the separator join plus one CR LF.
pub proof fn lemma_join_sep(ls: Seq<Seq<u8>>, i: int)
    requires
        0 <= i < ls.len(),
    ensures
        join_lines(ls, i) == sep_join(ls, i) + seq![13u8, 10u8],
    decreases ls.len() - i,
{
    if i == ls.len() - 1 {
        assert(join_lines(ls, i + 1) =~= Seq::<u8>::empty());
        assert(join_lines(ls, i) =~= sep_join(ls, i) + seq![13u8, 10u8]);
    } else {
        lemma_join_sep(ls, i + 1);
        assert(join_lines(ls, i) =~= sep_join(ls, i) + seq![13u8, 10u8]);
    }
}

/// The pieces a line-feed split of the separator join yields: each line
/// but the last with a trailing carriage return.
pub open spec fn cr_pieces(ls: Seq<Seq<u8>>, i: int) -> Seq<Seq<u8>>
    decreases ls.len() - i,
{
    if i < 0 || i >= ls.len() {
        Seq::empty()
    } else if i == ls.len() - 1 {
        seq![ls[i]]
    } else {
        seq![ls[i].push(13u8)] + cr_pieces(ls, i + 1)
    }
}

/// Splitting the separator join at line feeds yields the lines with
/// their carriage returns.
pub proof fn lemma_split_sep_join(ls: Seq<Seq<u8>>, i: int)
    requires
        0 <= i < ls.len(),
        lines_ok(ls, i),
    ensures
        crate::bytes::spec_split(sep_join(ls, i), 10) == cr_pieces(ls, i),
    decreases ls.len() - i,
{
    let s = sep_join(ls, i);
    if i == ls.len() - 1 {
        assert(s == ls[i]);
        crate::bytes::lemma_find_byte_from_missing(s, 10, 0);
        assert(s.subrange(0, s.len() as int) =~= s);
        assert(crate::bytes::spec_split(s, 10) =~= seq![s]);
    } else {
        lemma_split_sep_join(ls, i + 1);
        let l = ls[i];
        let ln = l.len() as int;
        assert(s == l + seq![13u8, 10u8] + sep_join(ls, i + 1));
        assert(s[ln + 1] == 10) by {
            assert(s[ln + 1] == (l + seq![13u8, 10u8] + sep_join(ls, i + 1))[ln + 1]);
        }
        assert forall|j: int| 0 <= j < ln + 1 implies s[j] != 10 by {
            if j < ln {
                assert(s[j] == l[j]);
            } else {
                assert(s[j] == 13);
            }
        }
        crate::bytes::lemma_find_byte_from_found(s, 10, 0, ln + 1);
        assert(s.subrange(0, ln + 1) =~= l.push(13u8));
        let a = l + seq![13u8, 10u8];
        let b = sep_join(ls, i + 1);
        assert(s =~= a + b);
        crate::bytes::lemma_split_shift(a, b, 10, 0);
        assert(crate::bytes::spec_split_from(s, 10, ln + 2) == crate::bytes::spec_split(b, 10));
        assert(crate::bytes::spec_split(s, 10) == seq![l.push(13u8)]
            + crate::bytes::spec_split_from(s, 10, ln + 2));
        assert(seq![l.push(13u8)] + cr_pieces(ls, i + 1) =~= cr_pieces(ls, i));
    }
}

/// The lines of the separator join are the lines themselves.
pub proof fn lemma_lines_of_sep_join(ls: Seq<Seq<u8>>)
    requires
        ls.len() >= 1,
        lines_ok(ls, 0),
    ensures
        spec_lines(sep_join(ls, 0)) == ls,
{
    lemma_split_sep_join(ls, 0);
    let parts = cr_pieces(ls, 0);
    assert(parts.len() == ls.len()) by {
        lemma_cr_pieces_len(ls, 0);
    }
    assert(parts.last().len() > 0) by {
        lemma_cr_pieces_shape(ls, 0);
        assert(parts[ls.len() - 1] == ls[ls.len() - 1]);
    }
    lemma_cr_pieces_shape(ls, 0);
    assert(spec_lines(sep_join(ls, 0)) =~= ls) by {
        assert forall|k: int|
            0 <= k < ls.len() implies parts.map_values(|l: Seq<u8>| crate::bytes::strip_cr(l))[k]
            == ls[k] by {
            if k < ls.len() - 1 {
                assert(parts[k] == ls[k].push(13u8));
                assert(crate::bytes::strip_cr(parts[k]) =~= ls[k]);
            } else {
                assert(parts[k] == ls[k]);
                assert(ls[k].len() > 0 && ls[k][ls[k].len() - 1] != 13);
            }
        }
    }
}

proof fn lemma_cr_pieces_len(ls: Seq<Seq<u8>>, i: int)
    requires
        0 <= i <= ls.len(),
    ensures
        cr_pieces(ls, i).len() == ls.len() - i,
    decreases ls.len() - i,
{
    if i < ls.len() && i != ls.len() - 1 {
        lemma_cr_pieces_len(ls, i + 1);
    }
}

proof fn lemma_cr_pieces_shape(ls: Seq<Seq<u8>>, i: int)
    requires
        0 <= i < ls.len(),
    ensures
        forall|k: int|
            0 <= k < cr_pieces(ls, i).len() ==> #[trigger] cr_pieces(ls, i)[k] == (if i + k
                < ls.len() - 1 {
                ls[i + k].push(13u8)
            } else {
                ls[i + k]
            }),
    decreases ls.len() - i,
{
    lemma_cr_pieces_len(ls, i);
    if i < ls.len() - 1 {
        lemma_cr_pieces_shape(ls, i + 1);
        lemma_cr_pieces_len(ls, i + 1);
        let ps = cr_pieces(ls, i);
        assert forall|k: int|
            0 <= k < ps.len() implies #[trigger] ps[k] == (if i + k < ls.len() - 1 {
                ls[i + k].push(13u8)
            } else {
                ls[i + k]
            }) by {
            if k == 0 {
                assert(ps[0] == ls[i].push(13u8));
            } else {
                assert(ps[k] == cr_pieces(ls, i + 1)[k - 1]);
            }
        }
    }
}

/// Folding header lines after a prefix folds the suffix.
pub proof fn lemma_fold_shift(a: Seq<Seq<u8>>, b: Seq<Seq<u8>>, k: int, acc: HeaderSeq)
    requires
        0 <= k <= b.len(),
    ensures
        fold_headers(a + b, a.len() + k, acc) == fold_headers(b, k, acc),
    decreases b.len() - k,
{
    if k < b.len() {
        assert((a + b)[a.len() + k] == b[k]);
        match spec_header_line(b[k]) {
            Some(nv) => {
                lemma_fold_shift(a, b, k + 1, spec_add(acc, nv.0, nv.1));
            },
            None => {
                lemma_fold_shift(a, b, k + 1, acc);
            },
        }
    }
}

/// Folding a concatenation folds the first part, then the second.
pub proof fn lemma_fold_concat(a: Seq<Seq<u8>>, b: Seq<Seq<u8>>, i: int, acc: HeaderSeq)
    requires
        0 <= i <= a.len(),
    ensures
        fold_headers(a + b, i, acc) == fold_headers(b, 0, fold_headers(a, i, acc)),
    decreases a.len() - i,
{
    if i < a.len() {
        assert((a + b)[i] == a[i]);
        match spec_header_line(a[i]) {
            Some(nv) => {
                lemma_fold_concat(a, b, i + 1, spec_add(acc, nv.0, nv.1));
            },
            None => {
                lemma_fold_concat(a, b, i + 1, acc);
            },
        }
    } else {
        lemma_fold_shift(a, b, 0, acc);
    }
}

/// A header map whose wire form parses back to itself: well-formed,
/// wire-safe, names plain tokens without colons, values trimmed, and
/// everything ASCII.
pub open spec fn headers_round_trip_safe(m: HeaderSeq) -> bool {
    &&& crate::headers::spec_wf(m)
    &&& crate::headers::wire_safe(m)
    &&& forall|i: int, j: int|
        0 <= i < m.len() && 0 <= j < m[i].0.len() ==> !crate::bytes::is_ws(#[trigger] m[i].0[j])
            && m[i].0[j] != 58 && m[i].0[j] < 128
    &&& forall|i: int, k: int|
        0 <= i < m.len() && 0 <= k < m[i].1.len() ==> spec_trim(#[trigger] m[i].1[k]) == m[i].1[k]
    &&& forall|i: int, k: int, j: int|
        0 <= i < m.len() && 0 <= k < m[i].1.len() && 0 <= j < m[i].1[k].len() ==> (
        #[trigger] m[i].1[k][j]) < 128
}

/// A wire header line parses to its name and value.
proof fn lemma_header_line_round_trip(m: HeaderSeq, i: int, k: int)
    requires
        headers_round_trip_safe(m),
        0 <= i < m.len(),
        0 <= k < m[i].1.len(),
    ensures
        spec_header_line(m[i].0 + seq![58u8, 32u8] + m[i].1[k]) == Some((m[i].0, m[i].1[k])),
{
    let name = m[i].0;
    let v = m[i].1[k];
    let line = name + seq![58u8, 32u8] + v;
    let nl = name.len() as int;
    assert(line[nl] == 58) by {
        assert(line[nl] == (name + seq![58u8, 32u8] + v)[nl]);
    }
    assert forall|j: int| 0 <= j < nl implies line[j] != 58 by {
        assert(line[j] == name[j]);
    }
    crate::bytes::lemma_find_byte_from_found(line, 58, 0, nl);
    assert(line.subrange(0, nl) =~= name);
    crate::bytes::lemma_trim_noop(name);
    crate::headers::lemma_lower_idempotent(name);
    assert(crate::bytes::lower(name) == name) by {
        assert(crate::headers::spec_wf(m));
    }
    assert(line.subrange(nl + 1, line.len() as int) =~= seq![32u8] + v);
    crate::bytes::lemma_trim_space_prefix(v);
}

/// The values of one entry folded onto the partial map extend it to the
/// next entry boundary.
pub open spec fn add_vals(acc: HeaderSeq, name: Seq<u8>, vals: Seq<Seq<u8>>, j: int) -> HeaderSeq
    decreases vals.len() - j,
{
    if j < 0 || j >= vals.len() {
        acc
    } else {
        add_vals(spec_add(acc, name, vals[j]), name, vals, j + 1)
    }
}

/// The partially rebuilt map: the first `i` entries, and the first `j`
/// values of entry `i`.
pub open spec fn partial_map(m: HeaderSeq, i: int, j: int) -> HeaderSeq {
    if j == 0 {
        m.take(i)
    } else {
        m.take(i).push((m[i].0, m[i].1.take(j)))
    }
}

proof fn lemma_add_vals_rebuild(m: HeaderSeq, i: int, j: int)
    requires
        headers_round_trip_safe(m),
        0 <= i < m.len(),
        0 <= j <= m[i].1.len(),
    ensures
        add_vals(partial_map(m, i, j), m[i].0, m[i].1, j) == m.take(i + 1),
    decreases m[i].1.len() - j,
{
    let name = m[i].0;
    let vals = m[i].1;
    if j == vals.len() {
        assert(vals.take(j as int) =~= vals);
        assert(j > 0) by {
            assert(crate::headers::spec_wf(m));
        }
        assert(partial_map(m, i, j) =~~= m.take(i + 1)) by {
            assert(m.take(i + 1) =~= m.take(i).push(m[i]));
        }
    } else {
        let acc = partial_map(m, i, j);
        crate::headers::lemma_idx_of_props(acc, name, 0);
        if j == 0 {
            assert(acc == m.take(i));
            match crate::headers::idx_of(acc, name) {
                Some(kk) => {
                    assert(acc[kk].0 == name);
                    assert(acc[kk] == m[kk]);
                    assert(m[kk].0 != m[i].0) by {
                        assert(crate::headers::spec_wf(m));
                    }
                    assert(false);
                },
                None => {},
            }
            assert(spec_add(acc, name, vals[j]) =~~= partial_map(m, i, 1)) by {
                assert(seq![vals[0]] =~= vals.take(1int));
            }
        } else {
            assert forall|kk: int| 0 <= kk < i implies acc[kk].0 != name by {
                assert(acc[kk] == m[kk]);
                assert(crate::headers::spec_wf(m));
            }
            assert(acc[i as int].0 == name);
            crate::headers::lemma_idx_of_found(acc, name, 0, i);
            assert(spec_add(acc, name, vals[j]) =~~= partial_map(m, i, j + 1)) by {
                assert(vals.take(j as int).push(vals[j]) =~= vals.take(j + 1));
            }
        }
        lemma_add_vals_rebuild(m, i, j + 1);
    }
}

/// Folding the wire lines of one entry performs its value additions.
proof fn lemma_fold_pair_lines(m: HeaderSeq, i: int, j: int, acc: HeaderSeq)
    requires
        headers_round_trip_safe(m),
        0 <= i < m.len(),
        0 <= j,
    ensures
        fold_headers(pair_lines(m[i].0, m[i].1, j), 0, acc) == add_vals(acc, m[i].0, m[i].1, j),
    decreases m[i].1.len() - j,
{
    let name = m[i].0;
    let vals = m[i].1;
    if j < vals.len() {
        lemma_header_line_round_trip(m, i, j);
        let line = name + seq![58u8, 32u8] + vals[j];
        let pls = pair_lines(name, vals, j);
        assert(pls == seq![line] + pair_lines(name, vals, j + 1));
        assert(pls[0] == line);
        lemma_fold_shift(seq![line], pair_lines(name, vals, j + 1), 0, spec_add(
            acc,
            name,
            vals[j],
        ));
        lemma_fold_pair_lines(m, i, j + 1, spec_add(acc, name, vals[j]));
        assert(fold_headers(pls, 0, acc) == fold_headers(pls, 1, spec_add(acc, name, vals[j])));
    }
}

/// Folding the whole wire line list from the partial map rebuilds the
/// map.
proof fn lemma_fold_rebuild(m: HeaderSeq, i: int)
    requires
        headers_round_trip_safe(m),
        0 <= i <= m.len(),
    ensures
        fold_headers(wire_line_list(m, i), 0, m.take(i)) == m,
    decreases m.len() - i,
{
    if i == m.len() {
        assert(m.take(i) =~= m);
    } else {
        lemma_fold_concat(pair_lines(m[i].0, m[i].1, 0), wire_line_list(m, i + 1), 0, m.take(i));
        lemma_fold_pair_lines(m, i, 0, m.take(i));
        assert(partial_map(m, i, 0) == m.take(i));
        lemma_add_vals_rebuild(m, i, 0);
        lemma_fold_rebuild(m, i + 1);
    }
}

/// A plain token: non-empty, no whitespace, ASCII.
pub open spec fn token_ok(t: Seq<u8>) -> bool {
    t.len() > 0 && forall|i: int|
        0 <= i < t.len() ==> !crate::bytes::is_ws(#[trigger] t[i]) && t[i] < 128
}

/// A request whose serialization parses back to it: plain path and
/// version tokens, the path carrying no query marker, unique query keys,
/// and round-trip-safe headers.
pub open spec fn request_wf(r: Request) -> bool {
    &&& token_ok(r.path@)
    &&& forall|i: int| 0 <= i < r.path@.len() ==> (#[trigger] r.path@[i]) != 63
    &&& token_ok(r.version@)
    &&& forall|i: int, j: int|
        0 <= i < j < r.query_view().len() ==> (#[trigger] r.query_view()[i].0) != (
        #[trigger] r.query_view()[j].0)
    &&& headers_round_trip_safe(r.headers@)
}

/// The query pairs percent-encoded and joined: `k=v` with `&` between.
pub open spec fn enc_qs(q: QuerySeq, i: int) -> Seq<u8>
    decreases q.len() - i,
{
    if i < 0 || i >= q.len() {
        Seq::empty()
    } else {
        let sep: Seq<u8> = if i + 1 < q.len() {
            seq![38u8]
        } else {
            Seq::empty()
        };
        crate::request::spec_url_encode(q[i].0) + seq![61u8] + crate::request::spec_url_encode(
            q[i].1,
        ) + sep + enc_qs(q, i + 1)
    }
}

/// The request target: the path, and the encoded query after `?` when
/// the query map is non-empty.
pub open spec fn spec_target(r: Request) -> Seq<u8> {
    if r.query_view().len() == 0 {
        r.path@
    } else {
        r.path@ + seq![63u8] + enc_qs(r.query_view(), 0)
    }
}

/// The wire form of a request: request line, header lines, one blank
/// line, body.
pub open spec fn spec_serialize_request(r: Request) -> Seq<u8> {
    crate::method::method_name(r.method) + seq![32u8] + spec_target(r) + seq![32u8] + r.version@
        + seq![13u8, 10u8] + crate::headers::spec_wire(r.headers@) + seq![13u8, 10u8] + r.body@
}

/// Serializes a request to wire form, re-encoding its query.
pub fn serialize_request(req: &Request) -> (r: Vec<u8>)
    ensures
        r@ == spec_serialize_request(*req),
{
    let mut out: Vec<u8> = Vec::new();
    out.extend_from_slice(req.method.as_str().as_bytes());
    out.push(32);
    out.extend_from_slice(req.path.as_slice());
    if req.query.len() > 0 {
        out.push(63);
        let ghost q = req.query_view();
        let mut i: usize = 0;
        while i < req.query.len()
            invariant
                i <= req.query@.len(),
                q == req.query_view(),
                q.len() == req.query@.len(),
                out@ + enc_qs(q, i as int) == crate::method::method_name(req.method) + seq![32u8]
                    + req.path@ + seq![63u8] + enc_qs(q, 0),
            decreases req.query@.len() - i,
        {
            let ek = crate::request::url_encode(req.query[i].0.as_slice());
            out.extend_from_slice(ek.as_slice());
            out.push(61);
            let ev = crate::request::url_encode(req.query[i].1.as_slice());
            out.extend_from_slice(ev.as_slice());
            if i + 1 < req.query.len() {
                out.push(38);
            }
            proof {
                assert(out@ + enc_qs(q, i + 1) =~= crate::method::method_name(req.method) + seq![
                    32u8,
                ] + req.path@ + seq![63u8] + enc_qs(q, 0));
            }
            i = i + 1;
        }
    }
    proof {
        assert(out@ =~= crate::method::method_name(req.method) + seq![32u8] + spec_target(*req));
    }
    out.push(32);
    out.extend_from_slice(req.version.as_slice());
    out.push(13);
    out.push(10);
    let head = req.headers.to_http_string();
    out.extend_from_slice(head.as_slice());
    out.push(13);
    out.push(10);
    out.extend_from_slice(req.body.as_slice());
    proof {
        assert(out@ =~= spec_serialize_request(*req));
    }
    out
}

/// Every byte of the encoded query is ASCII, printable, and not the
/// query marker.
proof fn lemma_enc_qs_safe(q: QuerySeq, i: int)
    requires
        0 <= i,
    ensures
        forall|x: int|
            0 <= x < enc_qs(q, i).len() ==> (#[trigger] enc_qs(q, i)[x]) < 128 && !crate::bytes::is_ws(
                enc_qs(q, i)[x],
            ) && enc_qs(q, i)[x] != 63,
    decreases q.len() - i,
{
    if i < q.len() {
        lemma_enc_qs_safe(q, i + 1);
        crate::request::lemma_enc_safe(q[i].0, 0);
        crate::request::lemma_enc_safe(q[i].1, 0);
        let ek = crate::request::spec_url_encode(q[i].0);
        let ev = crate::request::spec_url_encode(q[i].1);
        let sep: Seq<u8> = if i + 1 < q.len() {
            seq![38u8]
        } else {
            Seq::empty()
        };
        let e = enc_qs(q, i);
        assert forall|x: int|
            0 <= x < e.len() implies (#[trigger] e[x]) < 128 && !crate::bytes::is_ws(e[x]) && e[x]
            != 63 by {
            assert(e[x] == (ek + seq![61u8] + ev + sep + enc_qs(q, i + 1))[x]);
            if x < ek.len() {
                assert(e[x] == ek[x]);
                assert(crate::request::enc_byte_safe(ek[x]));
            } else if x < ek.len() + 1 {
                assert(e[x] == 61);
            } else if x < ek.len() + 1 + ev.len() {
                assert(e[x] == ev[x - ek.len() - 1]);
                assert(crate::request::enc_byte_safe(ev[x - ek.len() - 1]));
            } else if x < ek.len() + 1 + ev.len() + sep.len() {
                assert(e[x] == 38);
            } else {
                assert(e[x] == enc_qs(q, i + 1)[x - ek.len() - 1 - ev.len() - sep.len()]);
            }
        }
    }
}

/// The pieces an ampersand split of the encoded query yields: one
/// `k=v` piece per pair.
proof fn lemma_split_enc_qs(q: QuerySeq, i: int)
    requires
        0 <= i < q.len(),
    ensures
        crate::bytes::spec_split(enc_qs(q, i), 38) == amp_pieces(q, i),
    decreases q.len() - i,
{
    let e = enc_qs(q, i);
    let ek = crate::request::spec_url_encode(q[i].0);
    let ev = crate::request::spec_url_encode(q[i].1);
    let piece = ek + seq![61u8] + ev;
    crate::request::lemma_enc_safe(q[i].0, 0);
    crate::request::lemma_enc_safe(q[i].1, 0);
    if i == q.len() - 1 {
        assert(enc_qs(q, i + 1) =~= Seq::<u8>::empty());
        assert(amp_pieces(q, i + 1) =~= Seq::<Seq<u8>>::empty());
        assert(e =~= piece);
        assert forall|x: int| 0 <= x < e.len() implies e[x] != 38 by {
            assert(e[x] == piece[x]);
            if x < ek.len() {
                assert(piece[x] == ek[x]);
                assert(crate::request::enc_byte_safe(ek[x]));
            } else if x == ek.len() {
                assert(piece[x] == 61);
            } else {
                assert(piece[x] == ev[x - ek.len() - 1]);
                assert(crate::request::enc_byte_safe(ev[x - ek.len() - 1]));
            }
        }
        crate::bytes::lemma_find_byte_from_missing(e, 38, 0);
        assert(e.subrange(0, e.len() as int) =~= e);
        assert(crate::bytes::spec_split(e, 38) =~= seq![piece]);
        assert(amp_pieces(q, i) =~= seq![piece]);
    } else {
        lemma_split_enc_qs(q, i + 1);
        let pl = piece.len() as int;
        assert(e == piece + seq![38u8] + enc_qs(q, i + 1));
        assert(e[pl] == 38) by {
            assert(e[pl] == (piece + seq![38u8] + enc_qs(q, i + 1))[pl]);
        }
        assert forall|x: int| 0 <= x < pl implies e[x] != 38 by {
            assert(e[x] == piece[x]);
            if x < ek.len() {
                assert(piece[x] == ek[x]);
                assert(crate::request::enc_byte_safe(ek[x]));
            } else if x == ek.len() {
                assert(piece[x] == 61);
            } else {
                assert(piece[x] == ev[x - ek.len() - 1]);
                assert(crate::request::enc_byte_safe(ev[x - ek.len() - 1]));
            }
        }
        crate::bytes::lemma_find_byte_from_found(e, 38, 0, pl);
        assert(e.subrange(0, pl) =~= piece);
        let a = piece + seq![38u8];
        let b = enc_qs(q, i + 1);
        assert(e =~= a + b);
        crate::bytes::lemma_split_shift(a, b, 38, 0);
        assert(crate::bytes::spec_split_from(e, 38, pl + 1) == crate::bytes::spec_split(b, 38));
        assert(crate::bytes::spec_split(e, 38) == seq![piece] + crate::bytes::spec_split(b, 38));
        assert(seq![piece] + amp_pieces(q, i + 1) =~= amp_pieces(q, i));
    }
}

/// The expected pieces of the encoded query: `k=v` per pair.
pub open spec fn amp_pieces(q: QuerySeq, i: int) -> Seq<Seq<u8>>
    decreases q.len() - i,
{
    if i < 0 || i >= q.len() {
        Seq::empty()
    } else {
        seq![
            crate::request::spec_url_encode(q[i].0) + seq![61u8] + crate::request::spec_url_encode(
                q[i].1,
            ),
        ] + amp_pieces(q, i + 1)
    }
}

/// One encoded piece reads back to its pair.
proof fn lemma_piece_kv(q: QuerySeq, i: int)
    requires
        0 <= i < q.len(),
    ensures
        crate::request::pair_kv(
            crate::request::spec_url_encode(q[i].0) + seq![61u8]
                + crate::request::spec_url_encode(q[i].1),
        ) == Some((q[i].0, q[i].1)),
{
    let ek = crate::request::spec_url_encode(q[i].0);
    let ev = crate::request::spec_url_encode(q[i].1);
    let piece = ek + seq![61u8] + ev;
    crate::request::lemma_enc_safe(q[i].0, 0);
    assert(piece[ek.len() as int] == 61) by {
        assert(piece[ek.len() as int] == (ek + seq![61u8] + ev)[ek.len() as int]);
    }
    assert forall|x: int| 0 <= x < ek.len() implies piece[x] != 61 by {
        assert(piece[x] == ek[x]);
        assert(crate::request::enc_byte_safe(ek[x]));
    }
    crate::bytes::lemma_find_byte_from_found(piece, 61, 0, ek.len() as int);
    assert(piece.subrange(0, ek.len() as int) =~= ek);
    assert(piece.subrange(ek.len() as int + 1, piece.len() as int) =~= ev);
    crate::request::lemma_decode_encode(q[i].0);
    crate::request::lemma_decode_encode(q[i].1);
}

/// Folding the pieces from the partial query map rebuilds the map.
proof fn lemma_fold_pairs_rebuild(q: QuerySeq, i: int)
    requires
        0 <= i <= q.len(),
        forall|a: int, b: int| 0 <= a < b < q.len() ==> (#[trigger] q[a].0) != (#[trigger] q[b].0),
    ensures
        crate::request::fold_pairs(amp_pieces(q, i), 0, q.take(i)) == q,
    decreases q.len() - i,
{
    if i == q.len() {
        assert(q.take(i) =~= q);
    } else {
        lemma_piece_kv(q, i);
        let piece = crate::request::spec_url_encode(q[i].0) + seq![61u8]
            + crate::request::spec_url_encode(q[i].1);
        let ps = amp_pieces(q, i);
        assert(ps == seq![piece] + amp_pieces(q, i + 1));
        assert(ps[0] == piece);
        crate::request::lemma_qidx_props(q.take(i), q[i].0, 0);
        match crate::request::qidx(q.take(i), q[i].0) {
            Some(kk) => {
                assert(q.take(i)[kk].0 == q[i].0);
                assert(q[kk].0 == q[i].0);
                assert(false);
            },
            None => {},
        }
        assert(crate::request::spec_qinsert(q.take(i), q[i].0, q[i].1) =~~= q.take(i + 1)) by {
            assert(q.take(i).push((q[i].0, q[i].1)) =~~= q.take(i + 1));
        }
        lemma_fold_pairs_rebuild(q, i + 1);
        lemma_fold_pairs_shift(seq![piece], amp_pieces(q, i + 1), 0, q.take(i + 1));
        assert(crate::request::fold_pairs(ps, 0, q.take(i)) == crate::request::fold_pairs(
            ps,
            1,
            q.take(i + 1),
        ));
    }
}

/// Folding pair pieces after a prefix folds the suffix.
proof fn lemma_fold_pairs_shift(a: Seq<Seq<u8>>, b: Seq<Seq<u8>>, k: int, acc: QuerySeq)
    requires
        0 <= k <= b.len(),
    ensures
        crate::request::fold_pairs(a + b, a.len() + k, acc) == crate::request::fold_pairs(
            b,
            k,
            acc,
        ),
    decreases b.len() - k,
{
    if k < b.len() {
        assert((a + b)[a.len() + k] == b[k]);
        match crate::request::pair_kv(b[k]) {
            Some(kv) => {
                lemma_fold_pairs_shift(a, b, k + 1, crate::request::spec_qinsert(acc, kv.0, kv.1));
            },
            None => {
                lemma_fold_pairs_shift(a, b, k + 1, acc);
            },
        }
    }
}

/// Joined ASCII lines are ASCII.
proof fn lemma_join_ascii(ls: Seq<Seq<u8>>, i: int)
    requires
        0 <= i,
        forall|j: int, k: int|
            0 <= j < ls.len() && 0 <= k < ls[j].len() ==> (#[trigger] ls[j][k]) < 128,
    ensures
        forall|x: int|
            0 <= x < join_lines(ls, i).len() ==> (#[trigger] join_lines(ls, i)[x]) < 128,
    decreases ls.len() - i,
{
    if 0 <= i && i < ls.len() {
        lemma_join_ascii(ls, i + 1);
        let jn = join_lines(ls, i);
        let l = ls[i];
        assert forall|x: int| 0 <= x < jn.len() implies (#[trigger] jn[x]) < 128 by {
            assert(jn[x] == (l + seq![13u8, 10u8] + join_lines(ls, i + 1))[x]);
            if x < l.len() {
                assert(jn[x] == l[x]);
            } else if x < l.len() + 2 {
            } else {
                assert(jn[x] == join_lines(ls, i + 1)[x - l.len() - 2]);
            }
        }
    }
}

/// The target of a well-formed request is a plain printable token.
proof fn lemma_target_bytes(r: Request)
    requires
        request_wf(r),
    ensures
        spec_target(r).len() > 0,
        forall|x: int|
            0 <= x < spec_target(r).len() ==> !crate::bytes::is_ws(#[trigger] spec_target(r)[x])
                && spec_target(r)[x] < 128 && (x >= r.path@.len() || spec_target(r)[x]
                == r.path@[x]),
{
    let t = spec_target(r);
    let q = r.query_view();
    if q.len() == 0 {
        assert(t == r.path@);
    } else {
        lemma_enc_qs_safe(q, 0);
        let pl = r.path@.len() as int;
        assert forall|x: int|
            0 <= x < t.len() implies !crate::bytes::is_ws(#[trigger] t[x]) && t[x] < 128 && (x
            >= pl || t[x] == r.path@[x]) by {
            assert(t[x] == (r.path@ + seq![63u8] + enc_qs(q, 0))[x]);
            if x < pl {
                assert(t[x] == r.path@[x]);
            } else if x == pl {
                assert(t[x] == 63);
            } else {
                assert(t[x] == enc_qs(q, 0)[x - pl - 1]);
            }
        }
    }
}

/// The target of a well-formed request splits back into its path and
/// query map.
proof fn lemma_target_parse(r: Request)
    requires
        request_wf(r),
    ensures
        crate::request::spec_target_path(spec_target(r)) == r.path@,
        crate::request::spec_target_query(spec_target(r)) == r.query_view(),
{
    let t = spec_target(r);
    let q = r.query_view();
    if q.len() == 0 {
        crate::bytes::lemma_find_byte_from_missing(t, 63, 0);
        assert(crate::request::spec_target_query(t) =~= q);
    } else {
        let pl = r.path@.len() as int;
        lemma_enc_qs_safe(q, 0);
        assert(t[pl] == 63) by {
            assert(t[pl] == (r.path@ + seq![63u8] + enc_qs(q, 0))[pl]);
        }
        assert forall|x: int| 0 <= x < pl implies t[x] != 63 by {
            assert(t[x] == r.path@[x]);
        }
        crate::bytes::lemma_find_byte_from_found(t, 63, 0, pl);
        assert(t.subrange(0, pl) =~= r.path@);
        assert(t.subrange(pl + 1, t.len() as int) =~= enc_qs(q, 0));
        lemma_split_enc_qs(q, 0);
        assert(q.take(0int) =~= Seq::<(Seq<u8>, Seq<u8>)>::empty());
        lemma_fold_pairs_rebuild(q, 0);
    }
}

/// The request line of a well-formed request splits into its three
/// tokens.
#[verifier::rlimit(60)]
proof fn lemma_request_line_tokens(r: Request)
    requires
        request_wf(r),
    ensures
        spec_tokens3(
            crate::method::method_name(r.method) + seq![32u8] + spec_target(r) + seq![32u8]
                + r.version@,
        ) == Some((crate::method::method_name(r.method), spec_target(r), r.version@)),
{
    crate::method::lemma_parse_method_name(r.method);
    lemma_target_bytes(r);
    let mname = crate::method::method_name(r.method);
    let target = spec_target(r);
    let l0 = mname + seq![32u8] + target + seq![32u8] + r.version@;
    let mn = mname.len() as int;
    let tn = target.len() as int;
    assert forall|x: int| 0 <= x < l0.len() implies l0[x] == l0_byte_at(r, x) by {
        lemma_l0_byte(r, x);
    }
    crate::bytes::lemma_first_non_ws_found(l0, 0, 0);
    crate::bytes::lemma_tok_end_found(l0, 0, mn);
    crate::bytes::lemma_first_non_ws_found(l0, mn, mn + 1);
    crate::bytes::lemma_tok_end_found(l0, mn + 1, mn + 1 + tn);
    crate::bytes::lemma_first_non_ws_found(l0, mn + 1 + tn, mn + 2 + tn);
    crate::bytes::lemma_tok_end_found(l0, mn + 2 + tn, l0.len() as int);
    assert(l0.subrange(0, mn) =~= mname);
    assert(l0.subrange(mn + 1, mn + 1 + tn) =~= target);
    assert(l0.subrange(mn + 2 + tn, l0.len() as int) =~= r.version@);
}

/// Parsing the serialization of a well-formed request yields the request
/// back: same method, path, query, version, header map and body.
#[verifier::rlimit(100)]
pub proof fn lemma_parse_serialize_round_trip(r: Request)
    requires
        request_wf(r),
    ensures
        spec_parse(spec_serialize_request(r)) == Some(
            (r.method, r.path@, r.query_view(), r.version@, r.headers@, r.body@),
        ),
{
    let m = r.headers@;
    crate::method::lemma_parse_method_name(r.method);
    lemma_target_bytes(r);
    let mname = crate::method::method_name(r.method);
    let target = spec_target(r);
    let l0 = mname + seq![32u8] + target + seq![32u8] + r.version@;
    let ls = seq![l0] + wire_line_list(m, 0);
    let d = spec_serialize_request(r);

    // The serialization is the joined lines, a blank line, and the body.
    lemma_wire_join(m, 0);
    lemma_join_offset(seq![l0], wire_line_list(m, 0), 0);
    assert(ls[0] == l0);
    assert(join_lines(ls, 0) =~= l0 + seq![13u8, 10u8] + crate::headers::spec_wire(m));
    assert(d =~= join_lines(ls, 0) + seq![13u8, 10u8] + r.body@);

    // Every line is well-formed and ASCII.
    assert(line_ok(l0)) by {
        assert forall|x: int| 0 <= x < l0.len() implies l0[x] != 13 && l0[x] != 10 by {
            lemma_l0_byte(r, x);
        }
    }
    assert(lines_ok(ls, 0)) by {
        lemma_wire_lines_ok(m, 0);
        let ws = wire_line_list(m, 0);
        assert forall|j: int| 0 <= j < ls.len() implies line_ok(#[trigger] ls[j]) by {
            if j > 0 {
                assert(ls[j] == ws[j - 1]);
            }
        }
    }

    // The header end is right before the blank line.
    lemma_first_separator(ls, 0, r.body@);
    let he = join_lines(ls, 0).len() - 2;
    assert(spec_header_end(d) == Some(he));

    // The header section is the separator join of the lines, valid UTF-8.
    lemma_join_sep(ls, 0);
    let head = d.subrange(0, he);
    assert(head =~= sep_join(ls, 0));
    assert(is_valid_utf8(head)) by {
        lemma_lines_ascii(r, ls);
        lemma_join_ascii(ls, 0);
        assert forall|x: int| 0 <= x < head.len() implies (#[trigger] head[x]) < 128 by {
            assert(head[x] == join_lines(ls, 0)[x]);
        }
        crate::utf8::lemma_ascii_utf8(head, 0);
    }

    // The lines of the header section are the lines we joined.
    lemma_lines_of_sep_join(ls);
    assert(spec_lines(head) == ls);

    // The request line splits into its three tokens.
    lemma_request_line_tokens(r);

    // The target splits back into the path and the query map.
    lemma_target_parse(r);

    // The header lines fold back to the header map.
    lemma_fold_shift(seq![l0], wire_line_list(m, 0), 0, Seq::empty());
    assert(m.take(0int) =~= Seq::<(Seq<u8>, Seq<Seq<u8>>)>::empty());
    lemma_fold_rebuild(m, 0);
    assert(fold_headers(ls, 1, Seq::empty()) == m);

    // The body is everything after the blank line.
    assert(d.subrange(he + 4, d.len() as int) =~= r.body@);
}

/// The byte of the request line at an index: method, space, target,
/// space, version.
pub open spec fn l0_byte_at(r: Request, x: int) -> u8 {
    let mname = crate::method::method_name(r.method);
    let mn = mname.len() as int;
    let tn = spec_target(r).len() as int;
    if x < mn {
        mname[x]
    } else if x == mn {
        32u8
    } else if x < mn + 1 + tn {
        spec_target(r)[x - mn - 1]
    } else if x == mn + 1 + tn {
        32u8
    } else {
        r.version@[x - mn - 2 - tn]
    }
}

proof fn lemma_l0_byte(r: Request, x: int)
    requires
        request_wf(r),
        0 <= x < (crate::method::method_name(r.method) + seq![32u8] + spec_target(r) + seq![32u8]
            + r.version@).len(),
    ensures
        (crate::method::method_name(r.method) + seq![32u8] + spec_target(r) + seq![32u8]
            + r.version@)[x] == l0_byte_at(r, x),
        l0_byte_at(r, x) != 13 && l0_byte_at(r, x) != 10,
        l0_byte_at(r, x) < 128,
{
    crate::method::lemma_parse_method_name(r.method);
    lemma_target_bytes(r);
    let target = spec_target(r);
    let l0 = crate::method::method_name(r.method) + seq![32u8] + target + seq![32u8] + r.version@;
    let mname = crate::method::method_name(r.method);
    let mn = mname.len() as int;
    let tn = target.len() as int;
    if x < mn {
        assert(l0[x] == mname[x]);
        assert(!crate::bytes::is_ws(mname[x]));
    } else if x == mn {
        assert(l0[x] == 32);
    } else if x < mn + 1 + tn {
        assert(l0[x] == target[x - mn - 1]);
        assert(!crate::bytes::is_ws(target[x - mn - 1]));
    } else if x == mn + 1 + tn {
        assert(l0[x] == 32);
    } else {
        assert(l0[x] == r.version@[x - mn - 2 - tn]);
        assert(!crate::bytes::is_ws(r.version@[x - mn - 2 - tn]));
    }
}

/// Every line of a well-formed request's serialization is ASCII.
proof fn lemma_lines_ascii(r: Request, ls: Seq<Seq<u8>>)
    requires
        request_wf(r),
        ls == seq![
            crate::method::method_name(r.method) + seq![32u8] + spec_target(r) + seq![32u8]
                + r.version@,
        ] + wire_line_list(r.headers@, 0),
    ensures
        forall|j: int, k: int|
            0 <= j < ls.len() && 0 <= k < ls[j].len() ==> (#[trigger] ls[j][k]) < 128,
{
    let l0 = crate::method::method_name(r.method) + seq![32u8] + spec_target(r) + seq![32u8]
        + r.version@;
    lemma_wire_lines_ascii(r.headers@, 0);
    let ws = wire_line_list(r.headers@, 0);
    assert forall|j: int, k: int|
        0 <= j < ls.len() && 0 <= k < ls[j].len() implies (#[trigger] ls[j][k]) < 128 by {
        if j == 0 {
            assert(ls[j] == l0);
            lemma_l0_byte(r, k);
        } else {
            assert(ls[j] == ws[j - 1]);
        }
    }
}

proof fn lemma_wire_lines_ascii(m: HeaderSeq, i: int)
    requires
        0 <= i,
        headers_round_trip_safe(m),
    ensures
        forall|j: int, k: int|
            0 <= j < wire_line_list(m, i).len() && 0 <= k < wire_line_list(m, i)[j].len() ==> (
            #[trigger] wire_line_list(m, i)[j][k]) < 128,
    decreases m.len() - i,
{
    if i < m.len() {
        lemma_wire_lines_ascii(m, i + 1);
        lemma_pair_lines_ascii(m, i, 0);
        let xs = pair_lines(m[i].0, m[i].1, 0);
        let ys = wire_line_list(m, i + 1);
        let ws = wire_line_list(m, i);
        assert(ws == xs + ys);
        assert forall|j: int, k: int|
            0 <= j < ws.len() && 0 <= k < ws[j].len() implies (#[trigger] ws[j][k]) < 128 by {
            if j < xs.len() {
                assert(ws[j] == xs[j]);
            } else {
                assert(ws[j] == ys[j - xs.len()]);
            }
        }
    }
}

proof fn lemma_pair_lines_ascii(m: HeaderSeq, i: int, j: int)
    requires
        0 <= j,
        0 <= i < m.len(),
        headers_round_trip_safe(m),
    ensures
        forall|x: int, k: int|
            0 <= x < pair_lines(m[i].0, m[i].1, j).len() && 0 <= k < pair_lines(
                m[i].0,
                m[i].1,
                j,
            )[x].len() ==> (#[trigger] pair_lines(m[i].0, m[i].1, j)[x][k]) < 128,
    decreases m[i].1.len() - j,
{
    let name = m[i].0;
    let vals = m[i].1;
    if j < vals.len() {
        lemma_pair_lines_ascii(m, i, j + 1);
        let line = name + seq![58u8, 32u8] + vals[j];
        let pls = pair_lines(name, vals, j);
        assert(pls == seq![line] + pair_lines(name, vals, j + 1));
        assert forall|k: int| 0 <= k < line.len() implies line[k] < 128 by {
            if k < name.len() {
                assert(line[k] == m[i].0[k]);
            } else if k < name.len() + 2 {
            } else {
                assert(line[k] == m[i].1[j][k - name.len() - 2]);
            }
        }
        assert forall|x: int, k: int|
            0 <= x < pls.len() && 0 <= k < pls[x].len() implies (#[trigger] pls[x][k]) < 128 by {
            if x == 0 {
                assert(pls[x] == line);
            } else {
                assert(pls[x] == pair_lines(name, vals, j + 1)[x - 1]);
            }
        }
    }
}

/// The lowercase line prefixes the completeness scan compares against.
pub proof fn lemma_codec_tokens()
    ensures
        lower("content-length:".spec_bytes()) == "content-length:".spec_bytes(),
        lower("transfer-encoding:".spec_bytes()) == "transfer-encoding:".spec_bytes(),
        lower("chunked".spec_bytes()) == "chunked".spec_bytes(),
        "content-length:".spec_bytes().len() == 15,
        "transfer-encoding:".spec_bytes().len() == 18,
{
    reveal_strlit("content-length:");
    reveal_strlit("transfer-encoding:");
    reveal_strlit("chunked");
    vstd::string::is_ascii_spec_bytes("content-length:");
    vstd::string::is_ascii_spec_bytes("transfer-encoding:");
    vstd::string::is_ascii_spec_bytes("chunked");
    assert(lower("content-length:".spec_bytes()) =~= "content-length:".spec_bytes());
    assert(lower("transfer-encoding:".spec_bytes()) =~= "transfer-encoding:".spec_bytes());
    assert(lower("chunked".spec_bytes()) =~= "chunked".spec_bytes());
}

} // verus!
