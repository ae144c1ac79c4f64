//! The parsed request: method, path, decoded query, version, headers and
//! body.  A request is immutable once constructed.

use vstd::prelude::*;
use vstd::string::StringSliceAdditionalSpecFns;

use crate::bytes::{
    find_byte, hex_digit_val, index_of, is_hex_digit, lemma_find_byte_props,
    spec_split, spec_trim, split_byte, to_vec, trim,
};
use crate::headers::{
    lemma_header_tokens, spec_content_length, spec_get, spec_is_chunked, spec_keep_alive, Headers,
    HeaderSeq,
};
use crate::method::Method;

verus! {

/// The abstract content of a query map: `(key, value)` pairs, keys unique,
/// last writer winning.
pub type QuerySeq = Seq<(Seq<u8>, Seq<u8>)>;

/// The view of an executable query map.
pub open spec fn qview(q: Seq<(Vec<u8>, Vec<u8>)>) -> QuerySeq {
    q.map_values(|p: (Vec<u8>, Vec<u8>)| (p.0@, p.1@))
}

/// Index of the first pair keyed `k` at or after `i`.
pub open spec fn qidx_from(q: QuerySeq, k: Seq<u8>, i: int) -> Option<int>
    decreases q.len() - i,
{
    if i < 0 || i >= q.len() {
        None
    } else if q[i].0 == k {
        Some(i)
    } else {
        qidx_from(q, k, i + 1)
    }
}

/// Index of the pair keyed `k`, if any.
pub open spec fn qidx(q: QuerySeq, k: Seq<u8>) -> Option<int> {
    qidx_from(q, k, 0)
}

/// What `qidx_from` says about its result.
pub proof fn lemma_qidx_props(q: QuerySeq, k: Seq<u8>, i: int)
    requires
        0 <= i,
    ensures
        match qidx_from(q, k, i) {
            Some(j) => i <= j < q.len() && q[j].0 == k && forall|l: int| i <= l < j ==> q[l].0 != k,
            None => forall|l: int| i <= l < q.len() ==> q[l].0 != k,
        },
    decreases q.len() - i,
{
    if i < q.len() && q[i].0 != k {
        lemma_qidx_props(q, k, i + 1);
    }
}

/// The value stored under key `k`, if any.
pub open spec fn spec_qget(q: QuerySeq, k: Seq<u8>) -> Option<Seq<u8>> {
    match qidx(q, k) {
        Some(i) => Some(q[i].1),
        None => None,
    }
}

/// The map after binding `k` to `v`, the last writer winning.
pub open spec fn spec_qinsert(q: QuerySeq, k: Seq<u8>, v: Seq<u8>) -> QuerySeq {
    match qidx(q, k) {
        Some(i) => q.update(i, (k, v)),
        None => q.push((k, v)),
    }
}

/// Percent-decoding from index `i` on: `%XY` becomes one byte, a malformed
/// escape is kept literally, `+` becomes space.
pub open spec fn url_decode_from(s: Seq<u8>, i: int) -> Seq<u8>
    decreases s.len() - i,
{
    if i < 0 || i >= s.len() {
        Seq::empty()
    } else if s[i] == 37 {
        if i + 2 < s.len() {
            if is_hex_digit(s[i + 1]) && is_hex_digit(s[i + 2]) {
                seq![(hex_digit_val(s[i + 1]) * 16 + hex_digit_val(s[i + 2])) as u8]
                    + url_decode_from(s, i + 3)
            } else {
                seq![37u8, s[i + 1], s[i + 2]] + url_decode_from(s, i + 3)
            }
        } else {
            s.subrange(i, s.len() as int)
        }
    } else if s[i] == 43 {
        seq![32u8] + url_decode_from(s, i + 1)
    } else {
        seq![s[i]] + url_decode_from(s, i + 1)
    }
}

/// Percent-decoding of a whole sequence.
pub open spec fn spec_url_decode(s: Seq<u8>) -> Seq<u8> {
    url_decode_from(s, 0)
}

/// The key/value a query pair denotes: split at the first `=`; a key-only
/// pair has an empty value; an empty pair is nothing.
pub open spec fn pair_kv(p: Seq<u8>) -> Option<(Seq<u8>, Seq<u8>)> {
    match find_byte(p, 61) {
        Some(e) => Some(
            (
                spec_url_decode(p.subrange(0, e)),
                spec_url_decode(p.subrange(e + 1, p.len() as int)),
            ),
        ),
        None => if p.len() > 0 {
            Some((spec_url_decode(p), Seq::empty()))
        } else {
            None
        },
    }
}

/// Folds the pairs of a query string into a map, last writer winning.
pub open spec fn fold_pairs(pairs: Seq<Seq<u8>>, i: int, acc: QuerySeq) -> QuerySeq
    decreases pairs.len() - i,
{
    if i < 0 || i >= pairs.len() {
        acc
    } else {
        let next = match pair_kv(pairs[i]) {
            Some(kv) => spec_qinsert(acc, kv.0, kv.1),
            None => acc,
        };
        fold_pairs(pairs, i + 1, next)
    }
}

/// The query map denoted by a raw query string.
pub open spec fn spec_parse_query(qs: Seq<u8>) -> QuerySeq {
    fold_pairs(spec_split(qs, 38), 0, Seq::empty())
}

/// The path portion of a request target: everything before the first `?`.
pub open spec fn spec_target_path(uri: Seq<u8>) -> Seq<u8> {
    match find_byte(uri, 63) {
        Some(i) => uri.subrange(0, i),
        None => uri,
    }
}

/// The query map of a request target: the decoded pairs after the first
/// `?`, or the empty map.
pub open spec fn spec_target_query(uri: Seq<u8>) -> QuerySeq {
    match find_byte(uri, 63) {
        Some(i) => spec_parse_query(uri.subrange(i + 1, uri.len() as int)),
        None => Seq::empty(),
    }
}

/// The cookie named `name` among the `;`-separated parts, each part
/// trimmed and split at its first `=`.
pub open spec fn cookie_in_parts(parts: Seq<Seq<u8>>, name: Seq<u8>, i: int) -> Option<Seq<u8>>
    decreases parts.len() - i,
{
    if i < 0 || i >= parts.len() {
        None
    } else {
        let c = spec_trim(parts[i]);
        match find_byte(c, 61) {
            Some(e) => if c.subrange(0, e) == name {
                Some(c.subrange(e + 1, c.len() as int))
            } else {
                cookie_in_parts(parts, name, i + 1)
            },
            None => cookie_in_parts(parts, name, i + 1),
        }
    }
}

/// The value of the cookie named `name` in a header map.
pub open spec fn spec_cookie(m: HeaderSeq, name: Seq<u8>) -> Option<Seq<u8>> {
    match spec_get(m, "cookie".spec_bytes()) {
        Some(v) => cookie_in_parts(spec_split(v, 59), name, 0),
        None => None,
    }
}

/// An unreserved byte: letters, digits, `-`, `.`, `_`, `~`.
pub open spec fn is_unreserved(b: u8) -> bool {
    (65 <= b && b <= 90) || (97 <= b && b <= 122) || (48 <= b && b <= 57) || b == 45 || b == 46
        || b == 95 || b == 126
}

/// The uppercase hexadecimal digit for a value below 16.
pub open spec fn up_hex(d: nat) -> u8 {
    if d < 10 {
        (48 + d) as u8
    } else {
        (55 + d) as u8
    }
}

/// The encoding of one byte: itself when unreserved, a percent escape
/// otherwise.
pub open spec fn enc_byte(b: u8) -> Seq<u8> {
    if is_unreserved(b) {
        seq![b]
    } else {
        seq![37u8, up_hex((b / 16) as nat), up_hex((b % 16) as nat)]
    }
}

/// The percent-encoding of a sequence from index `k` on.
pub open spec fn enc_from(s: Seq<u8>, k: int) -> Seq<u8>
    decreases s.len() - k,
{
    if k < 0 || k >= s.len() {
        Seq::empty()
    } else {
        enc_byte(s[k]) + enc_from(s, k + 1)
    }
}

/// The percent-encoding of a sequence.
pub open spec fn spec_url_encode(s: Seq<u8>) -> Seq<u8> {
    enc_from(s, 0)
}

/// Percent-encodes `s`: unreserved bytes stay, every other byte becomes
/// a two-digit uppercase escape.
pub fn url_encode(s: &[u8]) -> (r: Vec<u8>)
    ensures
        r@ == spec_url_encode(s@),
{
    let mut r: Vec<u8> = Vec::new();
    let mut i: usize = 0;
    while i < s.len()
        invariant
            i <= s.len(),
            r@ + enc_from(s@, i as int) == spec_url_encode(s@),
        decreases s.len() - i,
    {
        let b = s[i];
        if (65 <= b && b <= 90) || (97 <= b && b <= 122) || (48 <= b && b <= 57) || b == 45 || b
            == 46 || b == 95 || b == 126 {
            r.push(b);
        } else {
            r.push(37);
            let hi = b / 16;
            let lo = b % 16;
            r.push(if hi < 10 {
                48 + hi
            } else {
                55 + hi
            });
            r.push(if lo < 10 {
                48 + lo
            } else {
                55 + lo
            });
        }
        proof {
            assert(r@ + enc_from(s@, i + 1) =~= spec_url_encode(s@));
        }
        i = i + 1;
    }
    proof {
        assert(r@ =~= spec_url_encode(s@));
    }
    r
}

/// Decoding undoes encoding: the escapes and unreserved bytes read back
/// to the original bytes.
pub proof fn lemma_decode_encode(s: Seq<u8>)
    ensures
        spec_url_decode(spec_url_encode(s)) == s,
{
    lemma_dec_enc_from(s, 0);
    assert(s.subrange(0, s.len() as int) =~= s);
}

/// Every byte of an encoding is ASCII, printable, and none of the query
/// delimiters.
pub open spec fn enc_byte_safe(b: u8) -> bool {
    b < 128 && !crate::bytes::is_ws(b) && b != 38 && b != 61 && b != 63
}

/// What encoded bytes look like, byte by byte.
pub proof fn lemma_enc_safe(s: Seq<u8>, k: int)
    requires
        0 <= k,
    ensures
        forall|x: int|
            0 <= x < enc_from(s, k).len() ==> enc_byte_safe(#[trigger] enc_from(s, k)[x]),
    decreases s.len() - k,
{
    if k < s.len() {
        lemma_enc_safe(s, k + 1);
        let e = enc_from(s, k);
        assert forall|x: int| 0 <= x < e.len() implies enc_byte_safe(#[trigger] e[x]) by {
            assert(e[x] == (enc_byte(s[k]) + enc_from(s, k + 1))[x]);
            if x < enc_byte(s[k]).len() {
                assert(e[x] == enc_byte(s[k])[x]);
            } else {
                assert(e[x] == enc_from(s, k + 1)[x - enc_byte(s[k]).len()]);
            }
        }
    }
}

proof fn lemma_enc_suffix(s: Seq<u8>, k: int)
    requires
        0 <= k <= s.len(),
    ensures
        enc_from(s, k).len() <= spec_url_encode(s).len(),
        spec_url_encode(s).subrange(
            spec_url_encode(s).len() - enc_from(s, k).len(),
            spec_url_encode(s).len() as int,
        ) == enc_from(s, k),
    decreases k,
{
    if k == 0 {
        assert(spec_url_encode(s).subrange(0, spec_url_encode(s).len() as int) =~= spec_url_encode(
            s,
        ));
    } else {
        lemma_enc_suffix(s, k - 1);
        assert(enc_from(s, k - 1) == enc_byte(s[k - 1]) + enc_from(s, k));
        let e = spec_url_encode(s);
        let tail_prev = enc_from(s, k - 1);
        let tail = enc_from(s, k);
        assert(e.subrange(e.len() - tail.len(), e.len() as int) =~= tail) by {
            assert forall|x: int|
                0 <= x < tail.len() implies #[trigger] e.subrange(
                e.len() - tail.len(),
                e.len() as int,
            )[x] == tail[x] by {
                let i1 = e.len() - tail.len() + x;
                let i0 = i1 - (e.len() - tail_prev.len());
                assert(e.subrange(e.len() - tail_prev.len(), e.len() as int)[i0] == e[i1]);
                assert(tail_prev[i0] == (enc_byte(s[k - 1]) + tail)[i0]);
            }
        }
    }
}

proof fn lemma_dec_enc_from(s: Seq<u8>, k: int)
    requires
        0 <= k <= s.len(),
    ensures
        url_decode_from(spec_url_encode(s), spec_url_encode(s).len() - enc_from(s, k).len())
            == s.subrange(k, s.len() as int),
    decreases s.len() - k,
{
    let e = spec_url_encode(s);
    lemma_enc_suffix(s, k);
    let pos = e.len() - enc_from(s, k).len();
    if k == s.len() {
        assert(enc_from(s, k).len() == 0);
        assert(url_decode_from(e, e.len() as int) =~= s.subrange(k, s.len() as int));
    } else {
        lemma_dec_enc_from(s, k + 1);
        let b = s[k];
        assert(enc_from(s, k) == enc_byte(b) + enc_from(s, k + 1));
        let tail = enc_from(s, k);
        let sub = e.subrange(pos as int, e.len() as int);
        assert(sub == tail);
        assert(sub[0] == e[pos + 0]);
        assert(e[pos + 0] == e[pos as int]);
        assert(tail[0] == enc_byte(b)[0]);
        if is_unreserved(b) {
            assert(e[pos as int] == b);
            assert(b != 37 && b != 43);
            assert(url_decode_from(e, pos) == seq![b] + url_decode_from(e, pos + 1));
            assert(seq![b] + s.subrange(k + 1, s.len() as int) =~= s.subrange(k, s.len() as int));
        } else {
            assert(sub[1] == e[pos + 1]);
            assert(sub[2] == e[pos + 2]);
            assert(tail[1] == enc_byte(b)[1]);
            assert(tail[2] == enc_byte(b)[2]);
            assert(e[pos as int] == 37);
            assert(e[pos + 1] == up_hex((b / 16) as nat));
            assert(e[pos + 2] == up_hex((b % 16) as nat));
            assert(crate::bytes::is_hex_digit(e[pos + 1]) && crate::bytes::is_hex_digit(
                e[pos + 2],
            ));
            assert(crate::bytes::hex_digit_val(e[pos + 1]) == b / 16);
            assert(crate::bytes::hex_digit_val(e[pos + 2]) == b % 16);
            assert(pos + 2 < e.len());
            assert((b / 16) * 16 + b % 16 == b) by (nonlinear_arith);
            assert(url_decode_from(e, pos) == seq![b] + url_decode_from(e, pos + 3));
            assert(seq![b] + s.subrange(k + 1, s.len() as int) =~= s.subrange(k, s.len() as int));
        }
    }
}

/// Percent-decodes `s`, mapping `+` to space and keeping malformed
/// escapes literally.
pub fn url_decode(s: &[u8]) -> (r: Vec<u8>)
    ensures
        r@ == spec_url_decode(s@),
{
    let mut r: Vec<u8> = Vec::new();
    let mut i: usize = 0;
    while i < s.len()
        invariant
            i <= s.len(),
            spec_url_decode(s@) == r@ + url_decode_from(s@, i as int),
        decreases s.len() - i,
    {
        let b = s[i];
        if b == 37 {
            if s.len() - i > 2 {
                let h1 = s[i + 1];
                let h2 = s[i + 2];
                let d1: u8 = if 48 <= h1 && h1 <= 57 {
                    h1 - 48
                } else if 97 <= h1 && h1 <= 102 {
                    h1 - 87
                } else if 65 <= h1 && h1 <= 70 {
                    h1 - 55
                } else {
                    255
                };
                let d2: u8 = if 48 <= h2 && h2 <= 57 {
                    h2 - 48
                } else if 97 <= h2 && h2 <= 102 {
                    h2 - 87
                } else if 65 <= h2 && h2 <= 70 {
                    h2 - 55
                } else {
                    255
                };
                if d1 != 255 && d2 != 255 {
                    r.push(d1 * 16 + d2);
                } else {
                    r.push(37);
                    r.push(h1);
                    r.push(h2);
                }
                proof {
                    assert(spec_url_decode(s@) =~= r@ + url_decode_from(s@, i + 3));
                }
                i = i + 3;
            } else {
                let rest = to_vec(&s[i..s.len()]);
                r.extend_from_slice(rest.as_slice());
                proof {
                    assert(rest@ =~= s@.subrange(i as int, s@.len() as int));
                    assert(url_decode_from(s@, i as int) == rest@);
                    assert(spec_url_decode(s@) =~= r@ + url_decode_from(s@, s@.len() as int));
                }
                i = s.len();
            }
        } else if b == 43 {
            r.push(32);
            proof {
                assert(spec_url_decode(s@) =~= r@ + url_decode_from(s@, i + 1));
            }
            i = i + 1;
        } else {
            r.push(b);
            proof {
                assert(spec_url_decode(s@) =~= r@ + url_decode_from(s@, i + 1));
            }
            i = i + 1;
        }
    }
    proof {
        assert(spec_url_decode(s@) =~= r@);
    }
    r
}

/// A parsed HTTP request.
#[derive(Debug, Clone)]
pub struct Request {
    /// Request method.
    pub method: Method,
    /// URI path portion, undecoded.
    pub path: Vec<u8>,
    /// Decoded query pairs, keys unique, last writer winning.
    pub query: Vec<(Vec<u8>, Vec<u8>)>,
    /// Protocol version token.
    pub version: Vec<u8>,
    /// Request headers.
    pub headers: Headers,
    /// Raw request body.
    pub body: Vec<u8>,
}

impl Request {
    /// The abstract query map.
    pub open spec fn query_view(&self) -> QuerySeq {
        qview(self.query@)
    }

    /// Creates a request from a method and a request target, splitting the
    /// target into path and decoded query.
    pub fn new(method: Method, target: &[u8]) -> (r: Request)
        ensures
            r.method == method,
            r.path@ == spec_target_path(target@),
            r.query_view() == spec_target_query(target@),
            r.version@ == "HTTP/1.1".spec_bytes(),
            r.headers@ =~= Seq::<(Seq<u8>, Seq<Seq<u8>>)>::empty(),
            r.headers.wf(),
            r.body@ =~= Seq::<u8>::empty(),
    {
        let (path, query) = Self::parse_target(target);
        let version = to_vec("HTTP/1.1".as_bytes());
        Request {
            method,
            path,
            query,
            version,
            headers: Headers::new(),
            body: Vec::new(),
        }
    }

    /// Splits a request target at the first `?` and decodes the query.
    fn parse_target(target: &[u8]) -> (r: (Vec<u8>, Vec<(Vec<u8>, Vec<u8>)>))
        ensures
            r.0@ == spec_target_path(target@),
            qview(r.1@) == spec_target_query(target@),
    {
        proof {
            lemma_find_byte_props(target@, 63, 0);
        }
        match index_of(target, 63) {
            None => {
                let path = to_vec(target);
                let q: Vec<(Vec<u8>, Vec<u8>)> = Vec::new();
                proof {
                    assert(qview(q@) =~= spec_target_query(target@));
                }
                (path, q)
            },
            Some(p) => {
                proof {
                    assert(p < target@.len());
                }
                let path = to_vec(&target[0..p]);
                proof {
                    assert(path@ =~= spec_target_path(target@));
                }
                let tlen = target.len();
                let qs = to_vec(&target[p + 1..tlen]);
                proof {
                    assert(qs@ =~= target@.subrange(p + 1, target@.len() as int));
                }
                let q = Self::parse_query(qs.as_slice());
                (path, q)
            },
        }
    }

    /// Decodes a raw query string into pairs, last writer winning.
    fn parse_query(qs: &[u8]) -> (r: Vec<(Vec<u8>, Vec<u8>)>)
        ensures
            qview(r@) == spec_parse_query(qs@),
    {
        let pairs = split_byte(qs, 38);
        let ghost ps = pairs@.map_values(|v: Vec<u8>| v@);
        let mut q: Vec<(Vec<u8>, Vec<u8>)> = Vec::new();
        proof {
            assert(qview(q@) =~= Seq::<(Seq<u8>, Seq<u8>)>::empty());
        }
        let mut i: usize = 0;
        while i < pairs.len()
            invariant
                i <= pairs.len(),
                ps == pairs@.map_values(|v: Vec<u8>| v@),
                ps.len() == pairs@.len(),
                spec_parse_query(qs@) == fold_pairs(ps, i as int, qview(q@)),
            decreases pairs.len() - i,
        {
            let p = &pairs[i];
            proof {
                lemma_find_byte_props(p@, 61, 0);
            }
            match index_of(p.as_slice(), 61) {
                Some(e) => {
                    let k = url_decode(&p.as_slice()[0..e]);
                    let v = url_decode(&p.as_slice()[e..p.len()][1..p.len() - e]);
                    proof {
                        assert(p@.subrange(e as int, p@.len() as int).subrange(
                            1,
                            p@.len() - e as int,
                        ) =~= p@.subrange(e + 1, p@.len() as int));
                        assert(k@ == spec_url_decode(ps[i as int].subrange(0, e as int)));
                    }
                    Self::insert_pair(&mut q, k, v);
                },
                None => {
                    if p.len() > 0 {
                        let k = url_decode(p.as_slice());
                        let v: Vec<u8> = Vec::new();
                        proof {
                            assert(v@ =~= Seq::<u8>::empty());
                        }
                        Self::insert_pair(&mut q, k, v);
                    }
                },
            }
            i = i + 1;
        }
        proof {
            assert(fold_pairs(ps, ps.len() as int, qview(q@)) == qview(q@));
        }
        q
    }

    /// Binds `k` to `v` in the pair list, the last writer winning.
    fn insert_pair(q: &mut Vec<(Vec<u8>, Vec<u8>)>, k: Vec<u8>, v: Vec<u8>)
        ensures
            qview(final(q)@) == spec_qinsert(qview(old(q)@), k@, v@),
    {
        let ghost m0 = qview(q@);
        proof {
            lemma_qidx_props(m0, k@, 0);
        }
        let mut i: usize = 0;
        let n = q.len();
        while i < n
            invariant
                i <= n,
                n == q@.len(),
                m0 == qview(q@),
                qidx_from(m0, k@, 0) == qidx_from(m0, k@, i as int),
            decreases n - i,
        {
            if crate::bytes::bytes_eq(q[i].0.as_slice(), k.as_slice()) {
                proof {
                    assert(m0[i as int].0 == k@);
                    assert(qidx_from(m0, k@, i as int) == Some(i as int));
                }
                let _ = q.remove(i);
                q.insert(i, (k, v));
                proof {
                    assert(qview(q@) =~~= spec_qinsert(m0, k@, v@));
                }
                return ;
            }
            i = i + 1;
        }
        proof {
            assert(qidx_from(m0, k@, q@.len() as int) == None::<int>);
        }
        q.push((k, v));
        proof {
            assert(qview(q@) =~~= spec_qinsert(m0, k@, v@));
        }
    }

    /// The `host` header value, if present.
    pub fn host(&self) -> (r: Option<Vec<u8>>)
        ensures
            match r {
                Some(v) => spec_get(self.headers@, "host".spec_bytes()) == Some(v@),
                None => spec_get(self.headers@, "host".spec_bytes()) == None::<Seq<u8>>,
            },
    {
        self.headers.host()
    }

    /// The parsed `content-length`, if present and numeric.
    pub fn content_length(&self) -> (r: Option<usize>)
        ensures
            match r {
                Some(v) => spec_content_length(self.headers@) == Some(v as int),
                None => spec_content_length(self.headers@) == None::<int>,
            },
    {
        self.headers.content_length()
    }

    /// The `content-type` header value, if present.
    pub fn content_type(&self) -> (r: Option<Vec<u8>>)
        ensures
            match r {
                Some(v) => spec_get(self.headers@, "content-type".spec_bytes()) == Some(v@),
                None => spec_get(self.headers@, "content-type".spec_bytes()) == None::<Seq<u8>>,
            },
    {
        self.headers.content_type()
    }

    /// Whether the request uses chunked transfer encoding.
    pub fn is_chunked(&self) -> (r: bool)
        ensures
            r == spec_is_chunked(self.headers@),
    {
        self.headers.is_chunked()
    }

    /// Whether the connection should be kept alive.
    pub fn keep_alive(&self) -> (r: bool)
        ensures
            r == spec_keep_alive(self.headers@),
    {
        self.headers.keep_alive()
    }

    /// The decoded query value for `name`, if present.
    pub fn query_param(&self, name: &[u8]) -> (r: Option<Vec<u8>>)
        ensures
            match r {
                Some(v) => spec_qget(self.query_view(), name@) == Some(v@),
                None => spec_qget(self.query_view(), name@) == None::<Seq<u8>>,
            },
    {
        let ghost m = self.query_view();
        proof {
            lemma_qidx_props(m, name@, 0);
        }
        let mut i: usize = 0;
        while i < self.query.len()
            invariant
                i <= self.query@.len(),
                m == self.query_view(),
                m.len() == self.query@.len(),
                qidx_from(m, name@, 0) == qidx_from(m, name@, i as int),
            decreases self.query@.len() - i,
        {
            if crate::bytes::bytes_eq(self.query[i].0.as_slice(), name) {
                return Some(to_vec(self.query[i].1.as_slice()));
            }
            i = i + 1;
        }
        None
    }

    /// The value of the cookie named `name`, if the `cookie` header
    /// carries one.
    pub fn cookie(&self, name: &[u8]) -> (r: Option<Vec<u8>>)
        ensures
            match r {
                Some(v) => spec_cookie(self.headers@, name@) == Some(v@),
                None => spec_cookie(self.headers@, name@) == None::<Seq<u8>>,
            },
    {
        proof {
            lemma_header_tokens();
        }
        let header = match self.headers.get("cookie".as_bytes()) {
            Some(h) => h,
            None => {
                return None;
            },
        };
        let parts = split_byte(header.as_slice(), 59);
        let ghost ps = parts@.map_values(|v: Vec<u8>| v@);
        let mut i: usize = 0;
        while i < parts.len()
            invariant
                i <= parts.len(),
                ps == parts@.map_values(|v: Vec<u8>| v@),
                ps.len() == parts@.len(),
                cookie_in_parts(ps, name@, 0) == cookie_in_parts(ps, name@, i as int),
            decreases parts.len() - i,
        {
            let c = trim(parts[i].as_slice());
            proof {
                assert(c@ == spec_trim(ps[i as int]));
                lemma_find_byte_props(c@, 61, 0);
            }
            match index_of(c.as_slice(), 61) {
                Some(e) => {
                    proof {
                        assert(e < c@.len());
                    }
                    if crate::bytes::bytes_eq(&c.as_slice()[0..e], name) {
                        let clen = c.len();
                        let v = to_vec(&c.as_slice()[e + 1..clen]);
                        proof {
                            assert(c@.subrange(0, e as int) == name@);
                            assert(cookie_in_parts(ps, name@, i as int) == Some(
                                c@.subrange(e + 1, c@.len() as int),
                            ));
                            assert(v@ =~= c@.subrange(e + 1, c@.len() as int));
                        }
                        return Some(v);
                    }
                },
                None => {},
            }
            proof {
                assert(cookie_in_parts(ps, name@, i as int) == cookie_in_parts(
                    ps,
                    name@,
                    i + 1,
                ));
            }
            i = i + 1;
        }
        None
    }

    /// The body, when it is well-formed UTF-8 text.
    pub fn body_str(&self) -> (r: Option<Vec<u8>>)
        ensures
            match r {
                Some(v) => crate::utf8::is_valid_utf8(self.body@) && v@ == self.body@,
                None => !crate::utf8::is_valid_utf8(self.body@),
            },
    {
        if crate::utf8::validate_utf8(self.body.as_slice()) {
            Some(to_vec(self.body.as_slice()))
        } else {
            None
        }
    }
}

} // verus!
