//! Upload handling: multipart body splitting, filename extraction, and
//! the upload responses.  Writing files is left to the embedding program.

use vstd::prelude::*;
use vstd::string::StringSliceAdditionalSpecFns;

use crate::bytes::{
    contains, contains_sub, dec_str, find, find_byte, find_sub, fmt_dec, index_of,
    lemma_find_byte_props, lemma_find_sub_props, lines, lower, spec_lines, spec_split_seq,
    spec_trim, spec_trim_byte, split_seq, starts_with, to_lower, to_vec, trim, trim_byte,
};
use crate::codec::crlf2;
use crate::headers::{spec_content_length, spec_get};
use crate::response::Response;
use crate::status::StatusCode;

verus! {

/// The filename named by a `content-disposition` line among the given
/// lines: the text between `filename="` and the next quote.
pub open spec fn filename_scan(ls: Seq<Seq<u8>>, i: int) -> Option<Seq<u8>>
    decreases ls.len() - i,
{
    if i < 0 || i >= ls.len() {
        None
    } else {
        let l = ls[i];
        if contains_sub(lower(l), "content-disposition".spec_bytes()) {
            match find_sub(l, "filename=\"".spec_bytes()) {
                Some(st) => if 0 <= st && st + 10 <= l.len() {
                    let rest = l.subrange(st + 10, l.len() as int);
                    match find_byte(rest, 34) {
                        Some(e) => Some(rest.subrange(0, e)),
                        None => filename_scan(ls, i + 1),
                    }
                } else {
                    filename_scan(ls, i + 1)
                },
                None => filename_scan(ls, i + 1),
            }
        } else {
            filename_scan(ls, i + 1)
        }
    }
}

/// The multipart boundary announced by a content type: the text after
/// `boundary=` up to any repeated marker, with surrounding quotes
/// stripped.
pub open spec fn spec_boundary(ct: Seq<u8>) -> Option<Seq<u8>> {
    match find_sub(ct, "boundary=".spec_bytes()) {
        Some(i) => if 0 <= i && i + 9 <= ct.len() {
            let after = ct.subrange(i + 9, ct.len() as int);
            let seg = match find_sub(after, "boundary=".spec_bytes()) {
                Some(j) => if 0 <= j <= after.len() {
                    after.subrange(0, j)
                } else {
                    after
                },
                None => after,
            };
            Some(spec_trim_byte(seg, 34))
        } else {
            None
        },
        None => None,
    }
}

/// A sequence with every trailing CR LF pair removed.
pub open spec fn strip_trailing_crlf(s: Seq<u8>) -> Seq<u8>
    decreases s.len(),
{
    if s.len() >= 2 && s[s.len() - 2] == 13 && s[s.len() - 1] == 10 {
        strip_trailing_crlf(s.subrange(0, s.len() - 2))
    } else {
        s
    }
}

/// Folds the boundary-split pieces into `(filename, contents)` pairs:
/// empty and terminator pieces are skipped, and a piece contributes only
/// when it names a file and separates its headers from its content.
pub open spec fn parts_scan(pieces: Seq<Seq<u8>>, i: int, acc: Seq<(Seq<u8>, Seq<u8>)>) -> Seq<
    (Seq<u8>, Seq<u8>),
>
    decreases pieces.len() - i,
{
    if i < 0 || i >= pieces.len() {
        acc
    } else {
        let part = pieces[i];
        let t = spec_trim(part);
        let acc2 = if t.len() == 0 || t == seq![45u8, 45u8] {
            acc
        } else {
            match filename_scan(spec_lines(part), 0) {
                None => acc,
                Some(name) => match find_sub(part, crlf2()) {
                    Some(cs) => if 0 <= cs && cs + 4 <= part.len() {
                        acc.push(
                            (name, strip_trailing_crlf(part.subrange(cs + 4, part.len() as int))),
                        )
                    } else {
                        acc
                    },
                    None => acc,
                },
            }
        };
        parts_scan(pieces, i + 1, acc2)
    }
}

/// The files a multipart body carries, or `None` when the content type
/// announces no boundary.
pub open spec fn spec_multipart_files(ct: Seq<u8>, body: Seq<u8>) -> Option<
    Seq<(Seq<u8>, Seq<u8>)>,
> {
    match spec_boundary(ct) {
        Some(b) => Some(
            parts_scan(spec_split_seq(body, seq![45u8, 45u8] + b), 0, Seq::empty()),
        ),
        None => None,
    }
}

/// The literals the upload scanner compares against.
pub proof fn lemma_upload_tokens()
    ensures
        "filename=\"".spec_bytes().len() == 10,
        "boundary=".spec_bytes().len() == 9,
        lower("content-disposition".spec_bytes()) == "content-disposition".spec_bytes(),
{
    reveal_strlit("filename=\"");
    reveal_strlit("boundary=");
    reveal_strlit("content-disposition");
    vstd::string::is_ascii_spec_bytes("filename=\"");
    vstd::string::is_ascii_spec_bytes("boundary=");
    vstd::string::is_ascii_spec_bytes("content-disposition");
    assert(lower("content-disposition".spec_bytes()) =~= "content-disposition".spec_bytes());
}

/// Extracts the filename from a multipart part's header lines.
pub fn extract_filename(part: &[u8]) -> (r: Option<Vec<u8>>)
    ensures
        match r {
            Some(name) => filename_scan(spec_lines(part@), 0) == Some(name@),
            None => filename_scan(spec_lines(part@), 0) == None::<Seq<u8>>,
        },
{
    proof {
        lemma_upload_tokens();
    }
    let ls = lines(part);
    let ghost lsv = ls@.map_values(|v: Vec<u8>| v@);
    let mut i: usize = 0;
    while i < ls.len()
        invariant
            i <= ls.len(),
            lsv == ls@.map_values(|v: Vec<u8>| v@),
            lsv.len() == ls@.len(),
            filename_scan(lsv, 0) == filename_scan(lsv, i as int),
        decreases ls.len() - i,
    {
        let l = &ls[i];
        let ll = to_lower(l.as_slice());
        if contains(ll.as_slice(), "content-disposition".as_bytes()) {
            proof {
                lemma_find_sub_props(l@, "filename=\"".spec_bytes(), 0);
            }
            match find(l.as_slice(), "filename=\"".as_bytes()) {
                Some(st) => {
                    let llen = l.len();
                    let rest = &l.as_slice()[st + 10..llen];
                    proof {
                        assert(rest@ =~= l@.subrange(st + 10, l@.len() as int));
                        lemma_find_byte_props(rest@, 34, 0);
                    }
                    match index_of(rest, 34) {
                        Some(e) => {
                            let name = to_vec(&rest[0..e]);
                            proof {
                                assert(name@ =~= rest@.subrange(0, e as int));
                            }
                            return Some(name);
                        },
                        None => {},
                    }
                },
                None => {},
            }
        }
        i = i + 1;
    }
    None
}

/// Reads the multipart boundary from a content type.
pub fn boundary_of(content_type: &[u8]) -> (r: Option<Vec<u8>>)
    ensures
        match r {
            Some(b) => spec_boundary(content_type@) == Some(b@),
            None => spec_boundary(content_type@) == None::<Seq<u8>>,
        },
{
    proof {
        lemma_upload_tokens();
        lemma_find_sub_props(content_type@, "boundary=".spec_bytes(), 0);
    }
    let i = match find(content_type, "boundary=".as_bytes()) {
        None => {
            return None;
        },
        Some(i) => i,
    };
    let ctlen = content_type.len();
    let after = &content_type[i + 9..ctlen];
    proof {
        assert(after@ =~= content_type@.subrange(i + 9, content_type@.len() as int));
        lemma_find_sub_props(after@, "boundary=".spec_bytes(), 0);
    }
    let seg: Vec<u8> = match find(after, "boundary=".as_bytes()) {
        Some(j) => {
            let v = to_vec(&after[0..j]);
            proof {
                assert(v@ =~= after@.subrange(0, j as int));
            }
            v
        },
        None => to_vec(after),
    };
    Some(trim_byte(seg.as_slice(), 34))
}

/// Splits a multipart body into `(filename, contents)` pairs; `None`
/// when the content type announces no boundary.
pub fn multipart_files(content_type: &[u8], body: &[u8]) -> (r: Option<Vec<(Vec<u8>, Vec<u8>)>>)
    ensures
        match r {
            Some(fs) => spec_multipart_files(content_type@, body@) == Some(
                fs@.map_values(|p: (Vec<u8>, Vec<u8>)| (p.0@, p.1@)),
            ),
            None => spec_multipart_files(content_type@, body@) == None::<Seq<(Seq<u8>, Seq<u8>)>>,
        },
{
    let b = match boundary_of(content_type) {
        None => {
            return None;
        },
        Some(b) => b,
    };
    let mut full: Vec<u8> = Vec::new();
    full.push(45);
    full.push(45);
    full.extend_from_slice(b.as_slice());
    proof {
        assert(full@ =~= seq![45u8, 45u8] + b@);
    }
    let pieces = split_seq(body, full.as_slice());
    let ghost ps = pieces@.map_values(|v: Vec<u8>| v@);
    let mut out: Vec<(Vec<u8>, Vec<u8>)> = Vec::new();
    proof {
        assert(out@.map_values(|p: (Vec<u8>, Vec<u8>)| (p.0@, p.1@)) =~= Seq::<(
            Seq<u8>,
            Seq<u8>,
        )>::empty());
    }
    let mut i: usize = 0;
    while i < pieces.len()
        invariant
            i <= pieces.len(),
            ps == pieces@.map_values(|v: Vec<u8>| v@),
            ps.len() == pieces@.len(),
            parts_scan(ps, 0, Seq::empty()) == parts_scan(
                ps,
                i as int,
                out@.map_values(|p: (Vec<u8>, Vec<u8>)| (p.0@, p.1@)),
            ),
        decreases pieces.len() - i,
    {
        let part = &pieces[i];
        let ghost acc0 = out@.map_values(|p: (Vec<u8>, Vec<u8>)| (p.0@, p.1@));
        let t = trim(part.as_slice());
        let mut dashes: Vec<u8> = Vec::new();
        dashes.push(45);
        dashes.push(45);
        proof {
            assert(dashes@ =~= seq![45u8, 45u8]);
        }
        if t.len() == 0 || crate::bytes::bytes_eq(t.as_slice(), dashes.as_slice()) {
        } else {
            match extract_filename(part.as_slice()) {
                None => {},
                Some(name) => {
                    proof {
                        lemma_find_sub_props(part@, crlf2(), 0);
                    }
                    let sep = crate::codec::crlf2_bytes();
                    match find(part.as_slice(), sep.as_slice()) {
                        None => {},
                        Some(cs) => {
                            let plen = part.len();
                            let mut content = to_vec(&part.as_slice()[cs + 4..plen]);
                            proof {
                                assert(content@ =~= part@.subrange(cs + 4, part@.len() as int));
                            }
                            let ghost c0 = content@;
                            while content.len() >= 2 && content[content.len() - 2] == 13
                                && content[content.len() - 1] == 10
                                invariant
                                    strip_trailing_crlf(c0) == strip_trailing_crlf(content@),
                                decreases content@.len(),
                            {
                                let newlen = content.len() - 2;
                                proof {
                                    assert(content@.subrange(0, content@.len() - 2)
                                        =~= content@.subrange(0, newlen as int));
                                }
                                content.truncate(newlen);
                            }
                            proof {
                                assert(strip_trailing_crlf(content@) == content@);
                            }
                            out.push((name, content));
                            proof {
                                assert(out@.map_values(|p: (Vec<u8>, Vec<u8>)| (p.0@, p.1@))
                                    =~= acc0.push((name@, strip_trailing_crlf(ps[i as int].subrange(
                                    cs + 4,
                                    ps[i as int].len() as int,
                                )))));
                            }
                        },
                    }
                },
            }
        }
        i = i + 1;
    }
    Some(out)
}

/// Whether a request body is a multipart form: its content type starts
/// with the multipart marker.
pub fn is_multipart(content_type: Option<&Vec<u8>>) -> (r: bool)
    ensures
        r == match content_type {
            Some(c) => crate::bytes::is_prefix("multipart/form-data".spec_bytes(), c@),
            None => false,
        },
{
    match content_type {
        Some(c) => starts_with(c.as_slice(), "multipart/form-data".as_bytes()),
        None => false,
    }
}

/// The outcome of a multipart upload: the listing response when any file
/// was written, nothing — a 400 for the caller to answer — otherwise.
pub fn multipart_result(written: &Vec<Vec<u8>>) -> (r: Option<Response>)
    ensures
        r is Some <==> written@.len() > 0,
        r matches Some(resp) ==> {
            &&& resp.status == StatusCode::Okay
            &&& resp.body@ == multipart_upload_body(written@.map_values(|v: Vec<u8>| v@))
            &&& spec_get(resp.headers@, "content-type".spec_bytes()) == Some(
                "application/json".spec_bytes(),
            )
            &&& spec_content_length(resp.headers@) == Some(resp.body@.len() as int)
            &&& resp.headers.wf()
        },
{
    if written.len() == 0 {
        None
    } else {
        Some(multipart_upload_response(written))
    }
}

/// The name of a raw upload file: `upload_` followed by the clock
/// seconds.
pub fn upload_filename(now_secs: u64) -> (r: Vec<u8>)
    ensures
        r@ == "upload_".spec_bytes() + dec_str(now_secs as nat),
{
    let mut r: Vec<u8> = Vec::new();
    r.extend_from_slice("upload_".as_bytes());
    let d = fmt_dec(now_secs);
    r.extend_from_slice(d.as_slice());
    proof {
        assert(r@ =~= "upload_".spec_bytes() + dec_str(now_secs as nat));
    }
    r
}

/// The JSON body confirming a raw upload.
pub open spec fn raw_upload_body(filename: Seq<u8>) -> Seq<u8> {
    "{\"status\":\"ok\",\"file\":\"".spec_bytes() + filename + "\"}".spec_bytes()
}

/// The 200 response confirming a raw upload.
pub fn raw_upload_response(filename: &[u8]) -> (r: Response)
    ensures
        r.status == StatusCode::Okay,
        r.body@ == raw_upload_body(filename@),
        spec_get(r.headers@, "content-type".spec_bytes()) == Some("application/json".spec_bytes()),
        spec_content_length(r.headers@) == Some(r.body@.len() as int),
        r.headers.wf(),
{
    let mut body: Vec<u8> = Vec::new();
    body.extend_from_slice("{\"status\":\"ok\",\"file\":\"".as_bytes());
    body.extend_from_slice(filename);
    body.extend_from_slice("\"}".as_bytes());
    proof {
        assert(body@ =~= raw_upload_body(filename@));
        crate::response::lemma_response_tokens();
        crate::headers::lemma_get_set_other(
            crate::response::fresh_headers(),
            "content-type".spec_bytes(),
            "application/json".spec_bytes(),
            "content-length".spec_bytes(),
        );
    }
    let resp = Response::ok().content_type("application/json".as_bytes());
    proof {
        crate::headers::lemma_get_set_other(
            resp.headers@,
            "content-length".spec_bytes(),
            dec_str(body@.len()),
            "content-type".spec_bytes(),
        );
    }
    resp.body(body)
}

/// The written filenames quoted and joined for the JSON array.
pub open spec fn quoted_names(names: Seq<Seq<u8>>, i: int) -> Seq<u8>
    decreases names.len() - i,
{
    if i < 0 || i >= names.len() {
        Seq::empty()
    } else {
        let sep: Seq<u8> = if i + 1 < names.len() {
            seq![44u8, 32u8]
        } else {
            Seq::empty()
        };
        seq![34u8] + names[i] + seq![34u8] + sep + quoted_names(names, i + 1)
    }
}

/// The JSON body listing the files a multipart upload wrote.
pub open spec fn multipart_upload_body(names: Seq<Seq<u8>>) -> Seq<u8> {
    "{\"status\":\"ok\",\"files\":[".spec_bytes() + quoted_names(names, 0) + "]}".spec_bytes()
}

/// The 200 response listing the files a multipart upload wrote.
pub fn multipart_upload_response(names: &Vec<Vec<u8>>) -> (r: Response)
    ensures
        r.status == StatusCode::Okay,
        r.body@ == multipart_upload_body(names@.map_values(|v: Vec<u8>| v@)),
        spec_get(r.headers@, "content-type".spec_bytes()) == Some("application/json".spec_bytes()),
        spec_content_length(r.headers@) == Some(r.body@.len() as int),
        r.headers.wf(),
{
    let ghost ns = names@.map_values(|v: Vec<u8>| v@);
    let mut body: Vec<u8> = Vec::new();
    body.extend_from_slice("{\"status\":\"ok\",\"files\":[".as_bytes());
    let mut i: usize = 0;
    while i < names.len()
        invariant
            i <= names.len(),
            ns == names@.map_values(|v: Vec<u8>| v@),
            ns.len() == names@.len(),
            body@ + quoted_names(ns, i as int) == "{\"status\":\"ok\",\"files\":[".spec_bytes()
                + quoted_names(ns, 0),
        decreases names.len() - i,
    {
        body.push(34);
        body.extend_from_slice(names[i].as_slice());
        body.push(34);
        if i + 1 < names.len() {
            body.push(44);
            body.push(32);
        }
        proof {
            assert(body@ + quoted_names(ns, i + 1) =~= "{\"status\":\"ok\",\"files\":[".spec_bytes()
                + quoted_names(ns, 0));
        }
        i = i + 1;
    }
    body.extend_from_slice("]}".as_bytes());
    proof {
        assert(body@ =~= multipart_upload_body(ns));
        crate::response::lemma_response_tokens();
        crate::headers::lemma_get_set_other(
            crate::response::fresh_headers(),
            "content-type".spec_bytes(),
            "application/json".spec_bytes(),
            "content-length".spec_bytes(),
        );
    }
    let resp = Response::ok().content_type("application/json".as_bytes());
    proof {
        crate::headers::lemma_get_set_other(
            resp.headers@,
            "content-length".spec_bytes(),
            dec_str(body@.len()),
            "content-type".spec_bytes(),
        );
    }
    resp.body(body)
}

} // verus!
