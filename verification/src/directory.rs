//! Directory listings: entry sorting, human-readable sizes, and the
//! auto-index HTML.  Reading the directory is left to the embedding
//! program, which passes the entries in.

use vstd::prelude::*;
use vstd::multiset::Multiset;
use vstd::string::StringSliceAdditionalSpecFns;

use crate::bytes::{dec_str, fmt_dec, rfind_byte, rindex_of, skip_byte_rev, to_vec};
use crate::headers::{spec_content_length, spec_get};
use crate::response::Response;
use crate::status::StatusCode;

verus! {

/// One directory entry as the embedding program reports it: a name, a
/// kind, and a size when known.
#[derive(Debug, Clone)]
pub struct DirEntryInfo {
    /// File name bytes.
    pub name: Vec<u8>,
    /// Whether the entry is a directory.
    pub is_dir: bool,
    /// Size in bytes, when the entry is a file whose size is known.
    pub size: Option<u64>,
}

/// Byte-wise lexicographic order from index `i` on.
pub open spec fn lex_le_from(x: Seq<u8>, y: Seq<u8>, i: int) -> bool
    decreases x.len() - i,
{
    if i < 0 || i >= x.len() {
        true
    } else if i >= y.len() {
        false
    } else if x[i] < y[i] {
        true
    } else if x[i] > y[i] {
        false
    } else {
        lex_le_from(x, y, i + 1)
    }
}

/// Byte-wise lexicographic order.
pub open spec fn lex_le(x: Seq<u8>, y: Seq<u8>) -> bool {
    lex_le_from(x, y, 0)
}

/// Listing order: directories first, then lexicographic by name.
pub open spec fn entry_le(a: DirEntryInfo, b: DirEntryInfo) -> bool {
    (a.is_dir && !b.is_dir) || (a.is_dir == b.is_dir && lex_le(a.name@, b.name@))
}

/// The lexicographic order is total.
proof fn lemma_lex_le_total(x: Seq<u8>, y: Seq<u8>, i: int)
    requires
        0 <= i,
    ensures
        lex_le_from(x, y, i) || lex_le_from(y, x, i),
    decreases x.len() - i,
{
    if i < x.len() && i < y.len() && x[i] == y[i] {
        lemma_lex_le_total(x, y, i + 1);
    }
}

/// The listing order is total.
proof fn lemma_entry_le_total(a: DirEntryInfo, b: DirEntryInfo)
    ensures
        entry_le(a, b) || entry_le(b, a),
{
    lemma_lex_le_total(a.name@, b.name@, 0);
}

/// Whether `x` sorts at or before `y`.
fn entry_le_exec(x: &DirEntryInfo, y: &DirEntryInfo) -> (r: bool)
    ensures
        r == entry_le(*x, *y),
{
    if x.is_dir && !y.is_dir {
        return true;
    }
    if x.is_dir != y.is_dir {
        return false;
    }
    let mut i: usize = 0;
    let xl = x.name.len();
    let yl = y.name.len();
    while i < xl && i < yl && x.name[i] == y.name[i]
        invariant
            i <= xl,
            i <= yl,
            xl == x.name@.len(),
            yl == y.name@.len(),
            lex_le_from(x.name@, y.name@, 0) == lex_le_from(x.name@, y.name@, i as int),
        decreases xl - i,
    {
        i = i + 1;
    }
    if i >= xl {
        true
    } else if i >= yl {
        false
    } else {
        x.name[i] < y.name[i]
    }
}

/// Sorts entries: directories first, then lexicographically by name.
/// The result is a reordering of the input.
pub fn sort_entries(entries: Vec<DirEntryInfo>) -> (r: Vec<DirEntryInfo>)
    ensures
        r@.to_multiset() == entries@.to_multiset(),
        forall|i: int| 0 <= i && i + 1 < r@.len() ==> entry_le(#[trigger] r@[i], r@[i + 1]),
{
    broadcast use vstd::seq_lib::group_to_multiset_ensures;

    let ghost total = entries@;
    let mut src = entries;
    let mut out: Vec<DirEntryInfo> = Vec::new();
    proof {
        assert(out@.to_multiset().add(src@.to_multiset()) =~= total.to_multiset());
    }
    while src.len() > 0
        invariant
            out@.to_multiset().add(src@.to_multiset()) == total.to_multiset(),
            forall|i: int| 0 <= i && i + 1 < out@.len() ==> entry_le(#[trigger] out@[i], out@[i + 1]),
        decreases src@.len(),
    {
        let ghost src0 = src@;
        let ghost out0 = out@;
        let e = match src.pop() {
            Some(e) => e,
            None => {
                proof {
                    assert(false);
                }
                continue ;
            },
        };
        proof {
            assert(src0 =~= src@.push(e));
            assert(src0.to_multiset() =~= src@.to_multiset().insert(e));
        }
        insert_sorted(&mut out, e);
        proof {
            assert(out@.to_multiset().add(src@.to_multiset()) =~= total.to_multiset());
        }
    }
    proof {
        assert(src@.to_multiset() =~= Multiset::<DirEntryInfo>::empty());
        assert(out@.to_multiset() =~= total.to_multiset());
    }
    out
}

/// Inserts an entry into a sorted list, keeping it sorted.
#[verifier::rlimit(60)]
fn insert_sorted(out: &mut Vec<DirEntryInfo>, e: DirEntryInfo)
    requires
        forall|i: int|
            0 <= i && i + 1 < old(out)@.len() ==> entry_le(#[trigger] old(out)@[i], old(out)@[i + 1]),
    ensures
        final(out)@.to_multiset() == old(out)@.to_multiset().insert(e),
        forall|i: int|
            0 <= i && i + 1 < final(out)@.len() ==> entry_le(
                #[trigger] final(out)@[i],
                final(out)@[i + 1],
            ),
{
    broadcast use vstd::seq_lib::group_to_multiset_ensures;

    let ghost out0 = out@;
    let mut p: usize = 0;
    while p < out.len() && entry_le_exec(&out[p], &e)
        invariant
            p <= out@.len(),
            out@ == out0,
            forall|i: int| 0 <= i < p ==> entry_le(#[trigger] out@[i], e),
        decreases out@.len() - p,
    {
        p = p + 1;
    }
    out.insert(p, e);
    proof {
        let a = out0.subrange(0, p as int).push(e);
        let b = out0.subrange(p as int, out0.len() as int);
        assert(out@ == a + b);
        if p < out0.len() {
            lemma_entry_le_total(out0[p as int], e);
            assert(entry_le(e, out0[p as int]));
        }
        assert forall|i: int| 0 <= i && i + 1 < out@.len() implies entry_le(
            #[trigger] out@[i],
            out@[i + 1],
        ) by {
            assert(out@[i] == (a + b)[i]);
            assert(out@[i + 1] == (a + b)[i + 1]);
            let pre = out0.subrange(0, p as int);
            if i + 1 < p {
                assert((a + b)[i] == a[i]);
                assert(a[i] == pre[i]);
                assert(pre[i] == out0[i]);
                assert((a + b)[i + 1] == a[i + 1]);
                assert(a[i + 1] == pre[i + 1]);
                assert(pre[i + 1] == out0[i + 1]);
            } else if i + 1 == p {
                assert((a + b)[i] == a[i]);
                assert(a[i] == pre[i]);
                assert(pre[i] == out0[i]);
                assert((a + b)[i + 1] == a[i + 1]);
                assert(a[i + 1] == e);
            } else if i == p {
                assert((a + b)[i] == a[i]);
                assert(a[i] == e);
                assert((a + b)[i + 1] == b[i + 1 - (p + 1)]);
                assert(b[i + 1 - (p + 1)] == out0[p + (i + 1 - (p + 1))]);
            } else {
                assert((a + b)[i] == b[i - (p + 1)]);
                assert(b[i - (p + 1)] == out0[p + (i - (p + 1))]);
                assert((a + b)[i + 1] == b[i + 1 - (p + 1)]);
                assert(b[i + 1 - (p + 1)] == out0[p + (i + 1 - (p + 1))]);
            }
        }
        assert(out@.remove(p as int) =~= out0);
        assert(out@.to_multiset().remove(e) =~= out0.to_multiset());
        assert(out@.contains(e)) by {
            assert(out@[p as int] == e);
        }
        assert(out@.to_multiset() =~= out0.to_multiset().insert(e)) by {
            assert(out@.to_multiset().count(e) > 0);
        }
    }
}

/// Tenths of a unit, rounded half up.
pub open spec fn size_tenths(n: nat, unit: nat) -> nat
    recommends
        unit > 0,
{
    (n * 10 + unit / 2) / unit
}

/// A size in human-readable form: B, KB, MB or GB with one decimal,
/// 1024-based.
pub open spec fn spec_format_size(n: nat) -> Seq<u8> {
    if n >= 1073741824 {
        let t = size_tenths(n, 1073741824);
        dec_str(t / 10) + seq![46u8, (48 + t % 10) as u8] + " GB".spec_bytes()
    } else if n >= 1048576 {
        let t = size_tenths(n, 1048576);
        dec_str(t / 10) + seq![46u8, (48 + t % 10) as u8] + " MB".spec_bytes()
    } else if n >= 1024 {
        let t = size_tenths(n, 1024);
        dec_str(t / 10) + seq![46u8, (48 + t % 10) as u8] + " KB".spec_bytes()
    } else {
        dec_str(n) + " B".spec_bytes()
    }
}

/// Formats a size with one decimal in the largest fitting 1024-based
/// unit.
pub fn format_size(size: u64) -> (r: Vec<u8>)
    ensures
        r@ == spec_format_size(size as nat),
{
    if size >= 1073741824 {
        format_with_unit(size, 1073741824, " GB")
    } else if size >= 1048576 {
        format_with_unit(size, 1048576, " MB")
    } else if size >= 1024 {
        format_with_unit(size, 1024, " KB")
    } else {
        let mut r = fmt_dec(size);
        r.extend_from_slice(" B".as_bytes());
        proof {
            assert(r@ =~= dec_str(size as nat) + " B".spec_bytes());
        }
        r
    }
}

/// Formats `size / unit` with one rounded decimal and the unit label.
#[verifier::rlimit(20)]
fn format_with_unit(size: u64, unit: u64, label: &str) -> (r: Vec<u8>)
    requires
        unit >= 1024,
        size >= unit,
    ensures
        r@ == dec_str(size_tenths(size as nat, unit as nat) / 10) + seq![
            46u8,
            (48 + size_tenths(size as nat, unit as nat) % 10) as u8,
        ] + label.spec_bytes(),
{
    proof {
        assert((size as u128) * 10 <= 340282366920938463463374607431768211455u128) by (nonlinear_arith)
            requires
                size <= 18446744073709551615u64,
        {}
    }
    let t128: u128 = ((size as u128) * 10 + (unit as u128) / 2) / (unit as u128);
    let ghost s_i = size as int;
    let ghost u_i = unit as int;
    proof {
        assert(t128 as int == (s_i * 10 + u_i / 2) / u_i);
        assert((s_i * 10 + u_i / 2) / u_i <= s_i) by (nonlinear_arith)
            requires
                u_i >= 1024,
                s_i >= u_i,
        {}
        assert(t128 as int == size_tenths(size as nat, unit as nat));
    }
    let t = t128 as u64;
    let whole = t / 10;
    let frac = (t % 10) as u8;
    let mut r = fmt_dec(whole);
    r.push(46);
    r.push(48 + frac);
    r.extend_from_slice(label.as_bytes());
    proof {
        assert(r@ =~= dec_str(size_tenths(size as nat, unit as nat) / 10) + seq![
            46u8,
            (48 + size_tenths(size as nat, unit as nat) % 10) as u8,
        ] + label.spec_bytes());
    }
    r
}

/// The parent of a request path: trailing slashes dropped, then the text
/// before the last slash; the root when no proper parent exists.
pub open spec fn spec_parent(p: Seq<u8>) -> Seq<u8> {
    let t = p.subrange(0, skip_byte_rev(p, 47, p.len() as int));
    match rfind_byte(t, 47) {
        Some(pos) => if pos > 0 {
            t.subrange(0, pos)
        } else {
            "/".spec_bytes()
        },
        None => "/".spec_bytes(),
    }
}

/// The opening of the listing page, up to the table header row.
pub open spec fn page_head(rp: Seq<u8>) -> Seq<u8> {
    "<!DOCTYPE html>\n<html>\n<head>\n<meta charset=\"utf-8\">\n<title>Index of ".spec_bytes()
        + rp
        + "</title>\n<style>\nbody { font-family: sans-serif; margin: 20px; }\nh1 { border-bottom: 1px solid #ccc; padding-bottom: 10px; }\ntable { border-collapse: collapse; width: 100%; }\nth, td { text-align: left; padding: 8px; border-bottom: 1px solid #ddd; }\ntr:hover { background-color: #f5f5f5; }\na { text-decoration: none; color: #0066cc; }\na:hover { text-decoration: underline; }\n.dir { font-weight: bold; }\n.size { color: #666; }\n</style>\n</head>\n<body>\n<h1>Index of ".spec_bytes()
        + rp + "</h1>\n<table>\n<tr><th>Name</th><th>Size</th><th>Type</th></tr>\n".spec_bytes()
}

/// The parent-directory row, present unless the request path is the
/// root.
pub open spec fn parent_row(rp: Seq<u8>) -> Seq<u8> {
    if rp == "/".spec_bytes() {
        Seq::empty()
    } else {
        "<tr><td class=\"dir\"><a href=\"".spec_bytes() + spec_parent(rp)
            + "\">..</a></td><td>-</td><td>Directory</td></tr>\n".spec_bytes()
    }
}

/// One listing row: a link to the child, its size, and its kind.
pub open spec fn spec_row(e: DirEntryInfo, rp: Seq<u8>) -> Seq<u8> {
    let href = if rp.len() > 0 && rp[rp.len() - 1] == 47 {
        rp + e.name@
    } else {
        rp + seq![47u8] + e.name@
    };
    let cls: Seq<u8> = if e.is_dir {
        " class=\"dir\"".spec_bytes()
    } else {
        Seq::empty()
    };
    let display = if e.is_dir {
        e.name@ + seq![47u8]
    } else {
        e.name@
    };
    let size_str: Seq<u8> = if e.is_dir {
        "-".spec_bytes()
    } else {
        match e.size {
            Some(n) => spec_format_size(n as nat),
            None => "-".spec_bytes(),
        }
    };
    let type_str: Seq<u8> = if e.is_dir {
        "Directory".spec_bytes()
    } else {
        "File".spec_bytes()
    };
    "<tr><td".spec_bytes() + cls + "><a href=\"".spec_bytes() + href + "\">".spec_bytes()
        + display + "</a></td><td class=\"size\">".spec_bytes() + size_str
        + "</td><td>".spec_bytes() + type_str + "</td></tr>\n".spec_bytes()
}

/// The rows for the entries from index `i` on.
pub open spec fn spec_rows(es: Seq<DirEntryInfo>, rp: Seq<u8>, i: int) -> Seq<u8>
    decreases es.len() - i,
{
    if i < 0 || i >= es.len() {
        Seq::empty()
    } else {
        spec_row(es[i], rp) + spec_rows(es, rp, i + 1)
    }
}

/// The closing of the listing page.
pub open spec fn page_tail() -> Seq<u8> {
    "</table>\n<hr>\n<p><em>localhost server</em></p>\n</body>\n</html>".spec_bytes()
}

/// The whole listing page for a request path and its entries, in order.
pub open spec fn spec_listing_html(rp: Seq<u8>, es: Seq<DirEntryInfo>) -> Seq<u8> {
    page_head(rp) + parent_row(rp) + spec_rows(es, rp, 0) + page_tail()
}

/// Builders for directory listings.
pub struct DirectoryListing;

impl DirectoryListing {
    /// Formats a file size in human-readable form.
    pub fn format_size(size: u64) -> (r: Vec<u8>)
        ensures
            r@ == spec_format_size(size as nat),
    {
        format_size(size)
    }

    /// The listing page for already-sorted entries.
    pub fn listing_response(request_path: &[u8], entries: &Vec<DirEntryInfo>) -> (r: Response)
        ensures
            r.status == StatusCode::Okay,
            r.body@ == spec_listing_html(request_path@, entries@),
            spec_get(r.headers@, "content-type".spec_bytes()) == Some(
                "text/html; charset=utf-8".spec_bytes(),
            ),
            spec_content_length(r.headers@) == Some(r.body@.len() as int),
            r.headers.wf(),
    {
        let mut out: Vec<u8> = Vec::new();
        push_head(&mut out, request_path);
        push_parent_row(&mut out, request_path);
        let ghost before_rows = out@;
        let mut i: usize = 0;
        while i < entries.len()
            invariant
                i <= entries@.len(),
                before_rows == page_head(request_path@) + parent_row(request_path@),
                out@ + spec_rows(entries@, request_path@, i as int) == before_rows + spec_rows(
                    entries@,
                    request_path@,
                    0,
                ),
            decreases entries@.len() - i,
        {
            push_row(&mut out, &entries[i], request_path);
            proof {
                assert(out@ + spec_rows(entries@, request_path@, i + 1) =~= before_rows
                    + spec_rows(entries@, request_path@, 0));
            }
            i = i + 1;
        }
        out.extend_from_slice(
            "</table>\n<hr>\n<p><em>localhost server</em></p>\n</body>\n</html>".as_bytes(),
        );
        proof {
            assert(out@ =~= spec_listing_html(request_path@, entries@));
            crate::response::lemma_response_tokens();
            crate::headers::lemma_header_tokens();
            crate::headers::lemma_get_set_other(
                crate::response::fresh_headers(),
                "content-type".spec_bytes(),
                "text/html; charset=utf-8".spec_bytes(),
                "content-length".spec_bytes(),
            );
        }
        let resp = Response::ok().content_type(
            "text/html; charset=utf-8".as_bytes(),
        );
        proof {
            crate::headers::lemma_get_set_other(
                resp.headers@,
                "content-length".spec_bytes(),
                crate::bytes::dec_str(out@.len()),
                "content-type".spec_bytes(),
            );
        }
        resp.body(out)
    }

    /// The listing page for a directory's entries: sorted with
    /// directories first, then lexicographically by name.
    pub fn generate(request_path: &[u8], entries: Vec<DirEntryInfo>) -> (r: Response)
        ensures
            r.status == StatusCode::Okay,
            exists|sorted: Seq<DirEntryInfo>|
                sorted.to_multiset() == entries@.to_multiset() && (forall|i: int|
                    0 <= i && i + 1 < sorted.len() ==> entry_le(
                        #[trigger] sorted[i],
                        sorted[i + 1],
                    )) && r.body@ == spec_listing_html(request_path@, sorted),
            spec_content_length(r.headers@) == Some(r.body@.len() as int),
            r.headers.wf(),
    {
        let sorted = sort_entries(entries);
        let r = Self::listing_response(request_path, &sorted);
        proof {
            assert(sorted@.to_multiset() == entries@.to_multiset() && (forall|i: int|
                0 <= i && i + 1 < sorted@.len() ==> entry_le(
                    #[trigger] sorted@[i],
                    sorted@[i + 1],
                )) && r.body@ == spec_listing_html(request_path@, sorted@));
        }
        r
    }

    /// The parent of a request path.
    pub fn parent_path(path: &[u8]) -> (r: Vec<u8>)
        ensures
            r@ == spec_parent(path@),
    {
        let mut e: usize = path.len();
        while e > 0 && path[e - 1] == 47
            invariant
                e <= path.len(),
                skip_byte_rev(path@, 47, path@.len() as int) == skip_byte_rev(
                    path@,
                    47,
                    e as int,
                ),
            decreases e,
        {
            e = e - 1;
        }
        let t = to_vec(&path[0..e]);
        proof {
            assert(t@ =~= path@.subrange(0, e as int));
            assert(skip_byte_rev(path@, 47, e as int) == e);
        }
        match rindex_of(t.as_slice(), 47) {
            Some(pos) => {
                if pos > 0 {
                    let v = to_vec(&t.as_slice()[0..pos]);
                    proof {
                        assert(v@ =~= t@.subrange(0, pos as int));
                    }
                    v
                } else {
                    to_vec("/".as_bytes())
                }
            },
            None => to_vec("/".as_bytes()),
        }
    }
}


/// Appends the page opening for a request path.
#[verifier::rlimit(60)]
fn push_head(out: &mut Vec<u8>, request_path: &[u8])
    ensures
        final(out)@ == old(out)@ + page_head(request_path@),
{
    let ghost base = out@;
    out.extend_from_slice(
        "<!DOCTYPE html>\n<html>\n<head>\n<meta charset=\"utf-8\">\n<title>Index of ".as_bytes(),
    );
    out.extend_from_slice(request_path);
    out.extend_from_slice(
        "</title>\n<style>\nbody { font-family: sans-serif; margin: 20px; }\nh1 { border-bottom: 1px solid #ccc; padding-bottom: 10px; }\ntable { border-collapse: collapse; width: 100%; }\nth, td { text-align: left; padding: 8px; border-bottom: 1px solid #ddd; }\ntr:hover { background-color: #f5f5f5; }\na { text-decoration: none; color: #0066cc; }\na:hover { text-decoration: underline; }\n.dir { font-weight: bold; }\n.size { color: #666; }\n</style>\n</head>\n<body>\n<h1>Index of ".as_bytes(),
    );
    out.extend_from_slice(request_path);
    out.extend_from_slice(
        "</h1>\n<table>\n<tr><th>Name</th><th>Size</th><th>Type</th></tr>\n".as_bytes(),
    );
    proof {
        assert(out@ =~= base + page_head(request_path@));
    }
}

/// Appends the parent-directory row unless the path is the root.
#[verifier::rlimit(60)]
fn push_parent_row(out: &mut Vec<u8>, request_path: &[u8])
    ensures
        final(out)@ == old(out)@ + parent_row(request_path@),
{
    let ghost base = out@;
    let mut slash: Vec<u8> = Vec::new();
    slash.push(47);
    proof {
        assert(slash@ =~= "/".spec_bytes()) by {
            reveal_strlit("/");
            vstd::string::is_ascii_spec_bytes("/");
        }
    }
    if !crate::bytes::bytes_eq(request_path, slash.as_slice()) {
        let parent = DirectoryListing::parent_path(request_path);
        out.extend_from_slice("<tr><td class=\"dir\"><a href=\"".as_bytes());
        out.extend_from_slice(parent.as_slice());
        out.extend_from_slice("\">..</a></td><td>-</td><td>Directory</td></tr>\n".as_bytes());
    }
    proof {
        assert(out@ =~= base + parent_row(request_path@));
    }
}

/// Appends one listing row.
#[verifier::rlimit(60)]
fn push_row(out: &mut Vec<u8>, e: &DirEntryInfo, request_path: &[u8])
    ensures
        final(out)@ == old(out)@ + spec_row(*e, request_path@),
{
    let ghost base = out@;
    out.extend_from_slice("<tr><td".as_bytes());
    if e.is_dir {
        out.extend_from_slice(" class=\"dir\"".as_bytes());
    }
    out.extend_from_slice("><a href=\"".as_bytes());
    let rplen = request_path.len();
    out.extend_from_slice(request_path);
    if !(rplen > 0 && request_path[rplen - 1] == 47) {
        out.push(47);
    }
    out.extend_from_slice(e.name.as_slice());
    out.extend_from_slice("\">".as_bytes());
    out.extend_from_slice(e.name.as_slice());
    if e.is_dir {
        out.push(47);
    }
    out.extend_from_slice("</a></td><td class=\"size\">".as_bytes());
    if e.is_dir {
        out.extend_from_slice("-".as_bytes());
    } else {
        match e.size {
            Some(n) => {
                let fs = format_size(n);
                out.extend_from_slice(fs.as_slice());
            },
            None => {
                out.extend_from_slice("-".as_bytes());
            },
        }
    }
    out.extend_from_slice("</td><td>".as_bytes());
    if e.is_dir {
        out.extend_from_slice("Directory".as_bytes());
    } else {
        out.extend_from_slice("File".as_bytes());
    }
    out.extend_from_slice("</td></tr>\n".as_bytes());
    proof {
        assert(out@ =~= base + spec_row(*e, request_path@));
    }
}

} // verus!
