//! Cookies: the `Set-Cookie` value builder and `Cookie` header parsing.

use vstd::prelude::*;
use vstd::string::StringSliceAdditionalSpecFns;

use crate::bytes::{dec_str, find_byte, fmt_dec, index_of, lemma_find_byte_props, spec_split,
    spec_trim, split_byte, to_vec, trim};
use crate::request::{qview, spec_qinsert, QuerySeq};

verus! {

/// The `SameSite` attribute values; `Unrestricted` serializes as `None`.
#[derive(Debug, Clone, Copy, PartialEq, Eq, Structural)]
pub enum SameSite {
    Strict,
    Lax,
    Unrestricted,
}

/// The serialized name of a `SameSite` value.
pub open spec fn same_site_name(s: SameSite) -> Seq<u8> {
    match s {
        SameSite::Strict => "Strict".spec_bytes(),
        SameSite::Lax => "Lax".spec_bytes(),
        SameSite::Unrestricted => "None".spec_bytes(),
    }
}

/// An HTTP cookie under construction.
#[derive(Debug, Clone)]
pub struct Cookie {
    pub name: Vec<u8>,
    pub value: Vec<u8>,
    pub path: Option<Vec<u8>>,
    pub domain: Option<Vec<u8>>,
    pub max_age: Option<u64>,
    pub secure: bool,
    pub http_only: bool,
    pub same_site: Option<SameSite>,
}

/// The path segment of a cookie's serialization.
pub open spec fn path_part(c: Cookie) -> Seq<u8> {
    match c.path {
        Some(p) => "; Path=".spec_bytes() + p@,
        None => Seq::empty(),
    }
}

/// The domain segment of a cookie's serialization.
pub open spec fn domain_part(c: Cookie) -> Seq<u8> {
    match c.domain {
        Some(d) => "; Domain=".spec_bytes() + d@,
        None => Seq::empty(),
    }
}

/// The max-age segment of a cookie's serialization.
pub open spec fn age_part(c: Cookie) -> Seq<u8> {
    match c.max_age {
        Some(a) => "; Max-Age=".spec_bytes() + dec_str(a as nat),
        None => Seq::empty(),
    }
}

/// The same-site segment of a cookie's serialization.
pub open spec fn same_site_part(c: Cookie) -> Seq<u8> {
    match c.same_site {
        Some(s) => "; SameSite=".spec_bytes() + same_site_name(s),
        None => Seq::empty(),
    }
}

/// The `Set-Cookie` header value a cookie serializes to.
pub open spec fn spec_cookie_header(c: Cookie) -> Seq<u8> {
    c.name@ + seq![61u8] + c.value@ + path_part(c) + domain_part(c) + age_part(c) + (if c.secure {
        "; Secure".spec_bytes()
    } else {
        Seq::empty()
    }) + (if c.http_only {
        "; HttpOnly".spec_bytes()
    } else {
        Seq::empty()
    }) + same_site_part(c)
}

impl Cookie {
    /// Creates a cookie with the defaults: path `/`, http-only, lax.
    pub fn new(name: &[u8], value: &[u8]) -> (r: Cookie)
        ensures
            r.name@ == name@,
            r.value@ == value@,
            r.path matches Some(p) && p@ == "/".spec_bytes(),
            r.domain is None,
            r.max_age is None,
            !r.secure,
            r.http_only,
            r.same_site == Some(SameSite::Lax),
    {
        Cookie {
            name: to_vec(name),
            value: to_vec(value),
            path: Some(to_vec("/".as_bytes())),
            domain: None,
            max_age: None,
            secure: false,
            http_only: true,
            same_site: Some(SameSite::Lax),
        }
    }

    /// Sets the path attribute.
    pub fn path(self, path: &[u8]) -> (r: Cookie)
        ensures
            r.path matches Some(p) && p@ == path@,
            r.name@ == self.name@ && r.value@ == self.value@ && r.domain == self.domain
                && r.max_age == self.max_age && r.secure == self.secure && r.http_only
                == self.http_only && r.same_site == self.same_site,
    {
        let mut r = self;
        r.path = Some(to_vec(path));
        r
    }

    /// Sets the domain attribute.
    pub fn domain(self, domain: &[u8]) -> (r: Cookie)
        ensures
            r.domain matches Some(d) && d@ == domain@,
            r.name@ == self.name@ && r.value@ == self.value@ && r.path == self.path && r.max_age
                == self.max_age && r.secure == self.secure && r.http_only == self.http_only
                && r.same_site == self.same_site,
    {
        let mut r = self;
        r.domain = Some(to_vec(domain));
        r
    }

    /// Sets the max-age attribute, in seconds.
    pub fn max_age(self, seconds: u64) -> (r: Cookie)
        ensures
            r.max_age == Some(seconds),
            r.name@ == self.name@ && r.value@ == self.value@ && r.path == self.path && r.domain
                == self.domain && r.secure == self.secure && r.http_only == self.http_only
                && r.same_site == self.same_site,
    {
        let mut r = self;
        r.max_age = Some(seconds);
        r
    }

    /// Sets the secure attribute.
    pub fn secure(self, secure: bool) -> (r: Cookie)
        ensures
            r.secure == secure,
            r.name@ == self.name@ && r.value@ == self.value@ && r.path == self.path && r.domain
                == self.domain && r.max_age == self.max_age && r.http_only == self.http_only
                && r.same_site == self.same_site,
    {
        let mut r = self;
        r.secure = secure;
        r
    }

    /// Sets the http-only attribute.
    pub fn http_only(self, http_only: bool) -> (r: Cookie)
        ensures
            r.http_only == http_only,
            r.name@ == self.name@ && r.value@ == self.value@ && r.path == self.path && r.domain
                == self.domain && r.max_age == self.max_age && r.secure == self.secure
                && r.same_site == self.same_site,
    {
        let mut r = self;
        r.http_only = http_only;
        r
    }

    /// Sets the same-site attribute.
    pub fn same_site(self, same_site: SameSite) -> (r: Cookie)
        ensures
            r.same_site == Some(same_site),
            r.name@ == self.name@ && r.value@ == self.value@ && r.path == self.path && r.domain
                == self.domain && r.max_age == self.max_age && r.secure == self.secure
                && r.http_only == self.http_only,
    {
        let mut r = self;
        r.same_site = Some(same_site);
        r
    }

    /// A session cookie: gone when the browser closes.
    pub fn session(name: &[u8], value: &[u8]) -> (r: Cookie)
        ensures
            r.name@ == name@,
            r.value@ == value@,
            r.max_age is None,
    {
        Cookie::new(name, value)
    }

    /// A persistent cookie with the given max-age.
    pub fn persistent(name: &[u8], value: &[u8], max_age_seconds: u64) -> (r: Cookie)
        ensures
            r.name@ == name@,
            r.value@ == value@,
            r.max_age == Some(max_age_seconds),
    {
        Cookie::new(name, value).max_age(max_age_seconds)
    }

    /// A cookie that tells the client to delete the name.
    pub fn delete(name: &[u8]) -> (r: Cookie)
        ensures
            r.name@ == name@,
            r.value@ == Seq::<u8>::empty(),
            r.max_age == Some(0u64),
    {
        let empty: Vec<u8> = Vec::new();
        proof {
            assert(empty@ =~= Seq::<u8>::empty());
        }
        Cookie::new(name, empty.as_slice()).max_age(0)
    }

    /// Serializes the cookie to a `Set-Cookie` header value.
    #[verifier::rlimit(100)]
    pub fn to_header_value(&self) -> (r: Vec<u8>)
        ensures
            r@ == spec_cookie_header(*self),
    {
        let mut out: Vec<u8> = Vec::new();
        out.extend_from_slice(self.name.as_slice());
        out.push(61);
        out.extend_from_slice(self.value.as_slice());
        let ghost c1 = self.name@ + seq![61u8] + self.value@;
        proof {
            assert(out@ =~= c1);
        }
        match &self.path {
            Some(p) => {
                out.extend_from_slice("; Path=".as_bytes());
                out.extend_from_slice(p.as_slice());
            },
            None => {},
        }
        let ghost c2 = c1 + path_part(*self);
        proof {
            assert(out@ =~= c2);
        }
        match &self.domain {
            Some(d) => {
                out.extend_from_slice("; Domain=".as_bytes());
                out.extend_from_slice(d.as_slice());
            },
            None => {},
        }
        let ghost c3 = c2 + domain_part(*self);
        proof {
            assert(out@ =~= c3);
        }
        match self.max_age {
            Some(a) => {
                out.extend_from_slice("; Max-Age=".as_bytes());
                let n = fmt_dec(a);
                out.extend_from_slice(n.as_slice());
            },
            None => {},
        }
        let ghost c4 = c3 + age_part(*self);
        proof {
            assert(out@ =~= c4);
        }
        if self.secure {
            out.extend_from_slice("; Secure".as_bytes());
        }
        let ghost c5 = c4 + (if self.secure {
            "; Secure".spec_bytes()
        } else {
            Seq::<u8>::empty()
        });
        proof {
            assert(out@ =~= c5);
        }
        if self.http_only {
            out.extend_from_slice("; HttpOnly".as_bytes());
        }
        let ghost c6 = c5 + (if self.http_only {
            "; HttpOnly".spec_bytes()
        } else {
            Seq::<u8>::empty()
        });
        proof {
            assert(out@ =~= c6);
        }
        match self.same_site {
            Some(s) => {
                out.extend_from_slice("; SameSite=".as_bytes());
                match s {
                    SameSite::Strict => out.extend_from_slice("Strict".as_bytes()),
                    SameSite::Lax => out.extend_from_slice("Lax".as_bytes()),
                    SameSite::Unrestricted => out.extend_from_slice("None".as_bytes()),
                }
            },
            None => {},
        }
        proof {
            assert(out@ =~= spec_cookie_header(*self));
        }
        out
    }
}

/// Folds `;`-separated cookie parts into a map, each part trimmed and
/// split at its first `=`, the last writer winning.
pub open spec fn cookie_fold(parts: Seq<Seq<u8>>, i: int, acc: QuerySeq) -> QuerySeq
    decreases parts.len() - i,
{
    if i < 0 || i >= parts.len() {
        acc
    } else {
        let c = spec_trim(parts[i]);
        let acc2 = match find_byte(c, 61) {
            Some(e) => spec_qinsert(
                acc,
                spec_trim(c.subrange(0, e)),
                spec_trim(c.subrange(e + 1, c.len() as int)),
            ),
            None => acc,
        };
        cookie_fold(parts, i + 1, acc2)
    }
}

/// The cookie map a `Cookie` header value denotes.
pub open spec fn spec_parse_cookies(header: Seq<u8>) -> QuerySeq {
    cookie_fold(spec_split(header, 59), 0, Seq::empty())
}

/// Parses a `Cookie` header value into name/value pairs.
pub fn parse_cookies(header_value: &[u8]) -> (r: Vec<(Vec<u8>, Vec<u8>)>)
    ensures
        qview(r@) == spec_parse_cookies(header_value@),
{
    let parts = split_byte(header_value, 59);
    let ghost ps = parts@.map_values(|v: Vec<u8>| v@);
    let mut out: Vec<(Vec<u8>, Vec<u8>)> = Vec::new();
    proof {
        assert(qview(out@) =~= Seq::<(Seq<u8>, Seq<u8>)>::empty());
    }
    let mut i: usize = 0;
    while i < parts.len()
        invariant
            i <= parts.len(),
            ps == parts@.map_values(|v: Vec<u8>| v@),
            ps.len() == parts@.len(),
            spec_parse_cookies(header_value@) == cookie_fold(ps, i as int, qview(out@)),
        decreases parts.len() - i,
    {
        let c = trim(parts[i].as_slice());
        proof {
            assert(c@ == spec_trim(ps[i as int]));
            lemma_find_byte_props(c@, 61, 0);
        }
        match index_of(c.as_slice(), 61) {
            Some(e) => {
                let clen = c.len();
                let name = trim(&c.as_slice()[0..e]);
                let value = trim(&c.as_slice()[e + 1..clen]);
                proof {
                    assert(name@ == spec_trim(c@.subrange(0, e as int)));
                    assert(value@ == spec_trim(c@.subrange(e + 1, c@.len() as int)));
                }
                insert_cookie(&mut out, name, value);
            },
            None => {},
        }
        i = i + 1;
    }
    out
}

/// Binds a cookie name, the last writer winning.
fn insert_cookie(out: &mut Vec<(Vec<u8>, Vec<u8>)>, k: Vec<u8>, v: Vec<u8>)
    ensures
        qview(final(out)@) == spec_qinsert(qview(old(out)@), k@, v@),
{
    let ghost m0 = qview(out@);
    proof {
        crate::request::lemma_qidx_props(m0, k@, 0);
    }
    let mut i: usize = 0;
    let n = out.len();
    while i < n
        invariant
            i <= n,
            n == out@.len(),
            m0 == qview(out@),
            crate::request::qidx_from(m0, k@, 0) == crate::request::qidx_from(m0, k@, i as int),
        decreases n - i,
    {
        if crate::bytes::bytes_eq(out[i].0.as_slice(), k.as_slice()) {
            proof {
                assert(m0[i as int].0 == k@);
                assert(crate::request::qidx_from(m0, k@, i as int) == Some(i as int));
            }
            let _ = out.remove(i);
            out.insert(i, (k, v));
            proof {
                assert(qview(out@) =~~= spec_qinsert(m0, k@, v@));
            }
            return ;
        }
        i = i + 1;
    }
    proof {
        assert(crate::request::qidx_from(m0, k@, out@.len() as int) == None::<int>);
    }
    out.push((k, v));
    proof {
        assert(qview(out@) =~~= spec_qinsert(m0, k@, v@));
    }
}

} // verus!
