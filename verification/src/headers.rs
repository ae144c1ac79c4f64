//! Case-insensitive multi-value header map with ordered serialization.
//!
//! Names are stored lowercased and are unique; each name keeps its values
//! in insertion order.  The view of a `Headers` is the sequence of
//! `(name, values)` pairs in first-insertion order.

use vstd::prelude::*;
use vstd::string::StringSliceAdditionalSpecFns;

use crate::bytes::{
    bytes_eq, contains, contains_sub, dec_opt, lower, parse_dec, to_lower, to_vec,
};

verus! {

/// One header name with its values in insertion order.
#[derive(Debug, Clone)]
pub struct HeaderEntry {
    pub name: Vec<u8>,
    pub values: Vec<Vec<u8>>,
}

impl View for HeaderEntry {
    type V = (Seq<u8>, Seq<Seq<u8>>);

    open spec fn view(&self) -> (Seq<u8>, Seq<Seq<u8>>) {
        (self.name@, self.values@.map_values(|v: Vec<u8>| v@))
    }
}

/// The abstract content of a header map: `(name, values)` pairs.
pub type HeaderSeq = Seq<(Seq<u8>, Seq<Seq<u8>>)>;

/// Index of the first entry named `name` at or after `i`.
pub open spec fn idx_of_from(m: HeaderSeq, name: Seq<u8>, i: int) -> Option<int>
    decreases m.len() - i,
{
    if i < 0 || i >= m.len() {
        None
    } else if m[i].0 == name {
        Some(i)
    } else {
        idx_of_from(m, name, i + 1)
    }
}

/// Index of the entry named `name`, if any.
pub open spec fn idx_of(m: HeaderSeq, name: Seq<u8>) -> Option<int> {
    idx_of_from(m, name, 0)
}

/// What `idx_of_from` says about its result.
pub proof fn lemma_idx_of_props(m: HeaderSeq, name: Seq<u8>, i: int)
    requires
        0 <= i,
    ensures
        match idx_of_from(m, name, i) {
            Some(k) => i <= k < m.len() && m[k].0 == name && forall|j: int|
                i <= j < k ==> m[j].0 != name,
            None => forall|j: int| i <= j < m.len() ==> m[j].0 != name,
        },
    decreases m.len() - i,
{
    if i < m.len() && m[i].0 != name {
        lemma_idx_of_props(m, name, i + 1);
    }
}

/// A name found at `k`, with no earlier occurrence, is where `idx_of`
/// points.
pub proof fn lemma_idx_of_found(m: HeaderSeq, name: Seq<u8>, i: int, k: int)
    requires
        0 <= i <= k < m.len(),
        m[k].0 == name,
        forall|j: int| i <= j < k ==> m[j].0 != name,
    ensures
        idx_of_from(m, name, i) == Some(k),
    decreases k - i,
{
    if i < k {
        lemma_idx_of_found(m, name, i + 1, k);
    }
}

/// Appending an entry under another name moves no index.
pub proof fn lemma_idx_push_other(m: HeaderSeq, e: (Seq<u8>, Seq<Seq<u8>>), o: Seq<u8>, j: int)
    requires
        0 <= j,
        e.0 != o,
    ensures
        idx_of_from(m.push(e), o, j) == idx_of_from(m, o, j),
    decreases m.len() + 1 - j,
{
    if j < m.len() + 1 {
        if j < m.len() && m[j].0 == o {
        } else {
            lemma_idx_push_other(m, e, o, j + 1);
        }
    }
}

/// Updating an entry without touching name `o` moves no index for `o`.
pub proof fn lemma_idx_update_other(
    m: HeaderSeq,
    i: int,
    e: (Seq<u8>, Seq<Seq<u8>>),
    o: Seq<u8>,
    j: int,
)
    requires
        0 <= i < m.len(),
        0 <= j,
        e.0 != o,
        m[i].0 != o,
    ensures
        idx_of_from(m.update(i, e), o, j) == idx_of_from(m, o, j),
    decreases m.len() - j,
{
    if j < m.len() {
        if m.update(i, e)[j].0 == o {
        } else {
            lemma_idx_update_other(m, i, e, o, j + 1);
        }
    }
}

/// After `spec_set`, the set name reads back the set value.
pub proof fn lemma_get_set(m: HeaderSeq, name: Seq<u8>, v: Seq<u8>)
    ensures
        spec_get(spec_set(m, name, v), name) == Some(v),
{
    lemma_idx_of_props(m, name, 0);
    let m2 = spec_set(m, name, v);
    match idx_of(m, name) {
        Some(i) => {
            lemma_idx_of_found(m2, name, 0, i);
        },
        None => {
            lemma_idx_of_found(m2, name, 0, m.len() as int);
        },
    }
}

/// `spec_set` leaves every other name unchanged.
pub proof fn lemma_get_set_other(m: HeaderSeq, name: Seq<u8>, v: Seq<u8>, o: Seq<u8>)
    requires
        o != name,
    ensures
        spec_get(spec_set(m, name, v), o) == spec_get(m, o),
        spec_get_all(spec_set(m, name, v), o) == spec_get_all(m, o),
{
    lemma_idx_of_props(m, name, 0);
    match idx_of(m, name) {
        Some(i) => {
            lemma_idx_update_other(m, i, (name, seq![v]), o, 0);
            lemma_idx_of_props(m, o, 0);
        },
        None => {
            lemma_idx_push_other(m, (name, seq![v]), o, 0);
            lemma_idx_of_props(m, o, 0);
        },
    }
}

/// The first value stored under `name`, if any.
pub open spec fn spec_get(m: HeaderSeq, name: Seq<u8>) -> Option<Seq<u8>> {
    match idx_of(m, name) {
        Some(i) => if m[i].1.len() > 0 {
            Some(m[i].1[0])
        } else {
            None
        },
        None => None,
    }
}

/// All values stored under `name`, if any.
pub open spec fn spec_get_all(m: HeaderSeq, name: Seq<u8>) -> Option<Seq<Seq<u8>>> {
    match idx_of(m, name) {
        Some(i) => Some(m[i].1),
        None => None,
    }
}

/// The map after appending `value` under `name`.
pub open spec fn spec_add(m: HeaderSeq, name: Seq<u8>, value: Seq<u8>) -> HeaderSeq {
    match idx_of(m, name) {
        Some(i) => m.update(i, (name, m[i].1.push(value))),
        None => m.push((name, seq![value])),
    }
}

/// The map after replacing every value under `name` with `value` alone.
pub open spec fn spec_set(m: HeaderSeq, name: Seq<u8>, value: Seq<u8>) -> HeaderSeq {
    match idx_of(m, name) {
        Some(i) => m.update(i, (name, seq![value])),
        None => m.push((name, seq![value])),
    }
}

/// The map after removing the entry named `name`.
pub open spec fn spec_remove(m: HeaderSeq, name: Seq<u8>) -> HeaderSeq {
    match idx_of(m, name) {
        Some(i) => m.subrange(0, i) + m.subrange(i + 1, m.len() as int),
        None => m,
    }
}

/// Well-formedness of a header map: names lowercased and unique, every
/// entry holding at least one value.
pub open spec fn spec_wf(m: HeaderSeq) -> bool {
    &&& forall|i: int| 0 <= i < m.len() ==> lower(#[trigger] m[i].0) == m[i].0
    &&& forall|i: int, j: int| 0 <= i < j < m.len() ==> (#[trigger] m[i].0) != (#[trigger] m[j].0)
    &&& forall|i: int| 0 <= i < m.len() ==> (#[trigger] m[i].1).len() > 0
}

/// A header map fit for the wire: names non-empty, and no CR or LF in
/// any name or value.
pub open spec fn wire_safe(m: HeaderSeq) -> bool {
    &&& forall|i: int| 0 <= i < m.len() ==> (#[trigger] m[i].0).len() > 0
    &&& forall|i: int, j: int|
        0 <= i < m.len() && 0 <= j < m[i].0.len() ==> (#[trigger] m[i].0[j]) != 13 && m[i].0[j]
            != 10
    &&& forall|i: int, k: int, j: int|
        0 <= i < m.len() && 0 <= k < m[i].1.len() && 0 <= j < m[i].1[k].len() ==> (
        #[trigger] m[i].1[k][j]) != 13 && m[i].1[k][j] != 10
}

/// The wire form of the values of one entry: `name: value CR LF` each.
pub open spec fn pairs_wire_from(name: Seq<u8>, vals: Seq<Seq<u8>>, j: int) -> Seq<u8>
    decreases vals.len() - j,
{
    if j < 0 || j >= vals.len() {
        Seq::empty()
    } else {
        name + seq![58u8, 32u8] + vals[j] + seq![13u8, 10u8] + pairs_wire_from(name, vals, j + 1)
    }
}

/// The wire form of the entries of `m` from index `i` on.
pub open spec fn wire_from(m: HeaderSeq, i: int) -> Seq<u8>
    decreases m.len() - i,
{
    if i < 0 || i >= m.len() {
        Seq::empty()
    } else {
        pairs_wire_from(m[i].0, m[i].1, 0) + wire_from(m, i + 1)
    }
}

/// The wire form of a header map: one `name: value CR LF` line per value.
pub open spec fn spec_wire(m: HeaderSeq) -> Seq<u8> {
    wire_from(m, 0)
}

/// Whether the map asks to keep the connection open: true unless the
/// `connection` value equals `close` ignoring case.
pub open spec fn spec_keep_alive(m: HeaderSeq) -> bool {
    match spec_get(m, "connection".spec_bytes()) {
        Some(v) => lower(v) != "close".spec_bytes(),
        None => true,
    }
}

/// Whether the `transfer-encoding` value contains `chunked` ignoring case.
pub open spec fn spec_is_chunked(m: HeaderSeq) -> bool {
    match spec_get(m, "transfer-encoding".spec_bytes()) {
        Some(v) => contains_sub(lower(v), "chunked".spec_bytes()),
        None => false,
    }
}

/// The parsed `content-length` value, if present and a decimal number.
pub open spec fn spec_content_length(m: HeaderSeq) -> Option<int> {
    match spec_get(m, "content-length".spec_bytes()) {
        Some(v) => dec_opt(v),
        None => None,
    }
}

/// The fixed header names and values this module compares against are
/// already lowercase.
pub proof fn lemma_header_tokens()
    ensures
        lower("connection".spec_bytes()) == "connection".spec_bytes(),
        lower("close".spec_bytes()) == "close".spec_bytes(),
        lower("transfer-encoding".spec_bytes()) == "transfer-encoding".spec_bytes(),
        lower("chunked".spec_bytes()) == "chunked".spec_bytes(),
        lower("content-length".spec_bytes()) == "content-length".spec_bytes(),
        lower("content-type".spec_bytes()) == "content-type".spec_bytes(),
        lower("host".spec_bytes()) == "host".spec_bytes(),
        lower("cookie".spec_bytes()) == "cookie".spec_bytes(),
{
    reveal_strlit("connection");
    reveal_strlit("close");
    reveal_strlit("transfer-encoding");
    reveal_strlit("chunked");
    reveal_strlit("content-length");
    reveal_strlit("content-type");
    reveal_strlit("host");
    reveal_strlit("cookie");
    vstd::string::is_ascii_spec_bytes("connection");
    vstd::string::is_ascii_spec_bytes("close");
    vstd::string::is_ascii_spec_bytes("transfer-encoding");
    vstd::string::is_ascii_spec_bytes("chunked");
    vstd::string::is_ascii_spec_bytes("content-length");
    vstd::string::is_ascii_spec_bytes("content-type");
    vstd::string::is_ascii_spec_bytes("host");
    vstd::string::is_ascii_spec_bytes("cookie");
    assert(lower("connection".spec_bytes()) =~= "connection".spec_bytes());
    assert(lower("close".spec_bytes()) =~= "close".spec_bytes());
    assert(lower("transfer-encoding".spec_bytes()) =~= "transfer-encoding".spec_bytes());
    assert(lower("chunked".spec_bytes()) =~= "chunked".spec_bytes());
    assert(lower("content-length".spec_bytes()) =~= "content-length".spec_bytes());
    assert(lower("content-type".spec_bytes()) =~= "content-type".spec_bytes());
    assert(lower("host".spec_bytes()) =~= "host".spec_bytes());
    assert(lower("cookie".spec_bytes()) =~= "cookie".spec_bytes());
}

/// Lowercasing is idempotent.
pub proof fn lemma_lower_idempotent(s: Seq<u8>)
    ensures
        lower(lower(s)) == lower(s),
{
    assert(lower(lower(s)) =~= lower(s));
}

/// Case-insensitive multi-value header map.
#[derive(Debug, Clone)]
pub struct Headers {
    pub entries: Vec<HeaderEntry>,
}

impl View for Headers {
    type V = HeaderSeq;

    open spec fn view(&self) -> HeaderSeq {
        self.entries@.map_values(|e: HeaderEntry| e@)
    }
}

impl Headers {
    /// Well-formedness: names lowercased and unique, values non-empty.
    pub open spec fn wf(&self) -> bool {
        spec_wf(self@)
    }

    /// Creates an empty header map.
    pub fn new() -> (r: Headers)
        ensures
            r@ == Seq::<(Seq<u8>, Seq<Seq<u8>>)>::empty(),
            r.wf(),
    {
        let r = Headers { entries: Vec::new() };
        proof {
            assert(r@ =~= Seq::<(Seq<u8>, Seq<Seq<u8>>)>::empty());
        }
        r
    }

    /// Index of the entry whose name is `lname` (already lowercased).
    fn index_for(&self, lname: &[u8]) -> (r: Option<usize>)
        ensures
            match r {
                Some(i) => idx_of(self@, lname@) == Some(i as int) && i < self.entries@.len(),
                None => idx_of(self@, lname@) == None::<int>,
            },
    {
        let ghost m = self@;
        let mut i: usize = 0;
        while i < self.entries.len()
            invariant
                i <= self.entries@.len(),
                m == self@,
                m.len() == self.entries@.len(),
                idx_of_from(m, lname@, 0) == idx_of_from(m, lname@, i as int),
            decreases self.entries@.len() - i,
        {
            if bytes_eq(self.entries[i].name.as_slice(), lname) {
                return Some(i);
            }
            i = i + 1;
        }
        None
    }

    /// Gets the first value for a header, ignoring name case.
    pub fn get(&self, name: &[u8]) -> (r: Option<Vec<u8>>)
        ensures
            match r {
                Some(v) => spec_get(self@, lower(name@)) == Some(v@),
                None => spec_get(self@, lower(name@)) == None::<Seq<u8>>,
            },
    {
        let lname = to_lower(name);
        match self.index_for(lname.as_slice()) {
            Some(i) => {
                let e = &self.entries[i];
                if e.values.len() > 0 {
                    Some(to_vec(e.values[0].as_slice()))
                } else {
                    None
                }
            },
            None => None,
        }
    }

    /// Gets all values for a header, ignoring name case.
    pub fn get_all(&self, name: &[u8]) -> (r: Option<Vec<Vec<u8>>>)
        ensures
            match r {
                Some(vs) => spec_get_all(self@, lower(name@)) == Some(
                    vs@.map_values(|v: Vec<u8>| v@),
                ),
                None => spec_get_all(self@, lower(name@)) == None::<Seq<Seq<u8>>>,
            },
    {
        let lname = to_lower(name);
        match self.index_for(lname.as_slice()) {
            Some(i) => {
                let e = &self.entries[i];
                let mut out: Vec<Vec<u8>> = Vec::new();
                let mut j: usize = 0;
                while j < e.values.len()
                    invariant
                        j <= e.values@.len(),
                        out@.len() == j,
                        forall|k: int| 0 <= k < j ==> out@[k]@ == e.values@[k]@,
                    decreases e.values@.len() - j,
                {
                    out.push(to_vec(e.values[j].as_slice()));
                    j = j + 1;
                }
                proof {
                    assert(out@.map_values(|v: Vec<u8>| v@) =~~= e.values@.map_values(
                        |v: Vec<u8>| v@,
                    ));
                }
                Some(out)
            },
            None => None,
        }
    }

    /// Sets a header value, replacing any existing values.
    pub fn set(&mut self, name: &[u8], value: &[u8])
        ensures
            final(self)@ == spec_set(old(self)@, lower(name@), value@),
            old(self).wf() ==> final(self).wf(),
    {
        let ghost m0 = self@;
        let lname = to_lower(name);
        proof {
            lemma_lower_idempotent(name@);
            lemma_idx_of_props(m0, lname@, 0);
        }
        let mut vals: Vec<Vec<u8>> = Vec::new();
        vals.push(to_vec(value));
        match self.index_for(lname.as_slice()) {
            Some(i) => {
                let mut e = self.entries.remove(i);
                e.name = lname;
                e.values = vals;
                self.entries.insert(i, e);
                proof {
                    assert(self@ =~~= spec_set(m0, lower(name@), value@));
                }
            },
            None => {
                let e = HeaderEntry { name: lname, values: vals };
                self.entries.push(e);
                proof {
                    assert(e@.1 =~= seq![value@]);
                    assert(self@ =~~= spec_set(m0, lower(name@), value@));
                }
            },
        }
    }

    /// Adds a header value, preserving existing values.
    pub fn add(&mut self, name: &[u8], value: &[u8])
        ensures
            final(self)@ == spec_add(old(self)@, lower(name@), value@),
            old(self).wf() ==> final(self).wf(),
    {
        let ghost m0 = self@;
        let lname = to_lower(name);
        proof {
            lemma_lower_idempotent(name@);
            lemma_idx_of_props(m0, lname@, 0);
        }
        match self.index_for(lname.as_slice()) {
            Some(i) => {
                let mut e = self.entries.remove(i);
                e.values.push(to_vec(value));
                self.entries.insert(i, e);
                proof {
                    assert(self@ =~~= spec_add(m0, lower(name@), value@));
                }
            },
            None => {
                let mut vals: Vec<Vec<u8>> = Vec::new();
                vals.push(to_vec(value));
                let e = HeaderEntry { name: lname, values: vals };
                self.entries.push(e);
                proof {
                    assert(e@.1 =~= seq![value@]);
                    assert(self@ =~~= spec_add(m0, lower(name@), value@));
                }
            },
        }
    }

    /// Removes a header, ignoring name case.
    pub fn remove(&mut self, name: &[u8])
        ensures
            final(self)@ == spec_remove(old(self)@, lower(name@)),
            old(self).wf() ==> final(self).wf(),
    {
        let ghost m0 = self@;
        let lname = to_lower(name);
        proof {
            lemma_idx_of_props(m0, lname@, 0);
        }
        match self.index_for(lname.as_slice()) {
            Some(i) => {
                self.entries.remove(i);
                proof {
                    assert(self@ =~~= spec_remove(m0, lower(name@)));
                }
            },
            None => {},
        }
    }

    /// Checks whether a header exists, ignoring name case.
    pub fn contains(&self, name: &[u8]) -> (r: bool)
        ensures
            r == (idx_of(self@, lower(name@)) is Some),
    {
        let lname = to_lower(name);
        self.index_for(lname.as_slice()).is_some()
    }

    /// The `content-length` value parsed as a number, if present.
    pub fn content_length(&self) -> (r: Option<usize>)
        ensures
            match r {
                Some(v) => spec_content_length(self@) == Some(v as int),
                None => spec_content_length(self@) == None::<int>,
            },
    {
        proof {
            lemma_header_tokens();
        }
        match self.get("content-length".as_bytes()) {
            Some(v) => parse_dec(v.as_slice()),
            None => None,
        }
    }

    /// The `content-type` value, if present.
    pub fn content_type(&self) -> (r: Option<Vec<u8>>)
        ensures
            match r {
                Some(v) => spec_get(self@, "content-type".spec_bytes()) == Some(v@),
                None => spec_get(self@, "content-type".spec_bytes()) == None::<Seq<u8>>,
            },
    {
        proof {
            lemma_header_tokens();
        }
        self.get("content-type".as_bytes())
    }

    /// The `host` value, if present.
    pub fn host(&self) -> (r: Option<Vec<u8>>)
        ensures
            match r {
                Some(v) => spec_get(self@, "host".spec_bytes()) == Some(v@),
                None => spec_get(self@, "host".spec_bytes()) == None::<Seq<u8>>,
            },
    {
        proof {
            lemma_header_tokens();
        }
        self.get("host".as_bytes())
    }

    /// The `connection` value, if present.
    pub fn connection(&self) -> (r: Option<Vec<u8>>)
        ensures
            match r {
                Some(v) => spec_get(self@, "connection".spec_bytes()) == Some(v@),
                None => spec_get(self@, "connection".spec_bytes()) == None::<Seq<u8>>,
            },
    {
        proof {
            lemma_header_tokens();
        }
        self.get("connection".as_bytes())
    }

    /// Whether the connection should be kept alive: true unless the
    /// `connection` value equals `close` ignoring case.
    pub fn keep_alive(&self) -> (r: bool)
        ensures
            r == spec_keep_alive(self@),
    {
        proof {
            lemma_header_tokens();
        }
        match self.connection() {
            Some(v) => {
                let lv = to_lower(v.as_slice());
                proof {
                    lemma_lower_idempotent(v@);
                }
                !bytes_eq(lv.as_slice(), "close".as_bytes())
            },
            None => true,
        }
    }

    /// The `transfer-encoding` value, if present.
    pub fn transfer_encoding(&self) -> (r: Option<Vec<u8>>)
        ensures
            match r {
                Some(v) => spec_get(self@, "transfer-encoding".spec_bytes()) == Some(v@),
                None => spec_get(self@, "transfer-encoding".spec_bytes()) == None::<Seq<u8>>,
            },
    {
        proof {
            lemma_header_tokens();
        }
        self.get("transfer-encoding".as_bytes())
    }

    /// Whether the `transfer-encoding` value mentions `chunked`.
    pub fn is_chunked(&self) -> (r: bool)
        ensures
            r == spec_is_chunked(self@),
    {
        proof {
            lemma_header_tokens();
        }
        match self.transfer_encoding() {
            Some(v) => {
                let lv = to_lower(v.as_slice());
                contains(lv.as_slice(), "chunked".as_bytes())
            },
            None => false,
        }
    }

    /// All entries, in first-insertion order.
    pub fn iter(&self) -> (r: &Vec<HeaderEntry>)
        ensures
            r@.map_values(|e: HeaderEntry| e@) == self@,
    {
        &self.entries
    }

    /// Serializes the headers to wire format, one `name: value` line per
    /// value.
    pub fn to_http_string(&self) -> (r: Vec<u8>)
        ensures
            r@ == spec_wire(self@),
    {
        let ghost m = self@;
        let mut out: Vec<u8> = Vec::new();
        let mut i: usize = 0;
        while i < self.entries.len()
            invariant
                i <= self.entries@.len(),
                m == self@,
                m.len() == self.entries@.len(),
                out@ + wire_from(m, i as int) == spec_wire(m),
            decreases self.entries@.len() - i,
        {
            let e = &self.entries[i];
            let ghost name = m[i as int].0;
            let ghost vals = m[i as int].1;
            let mut j: usize = 0;
            while j < e.values.len()
                invariant
                    j <= e.values@.len(),
                    e@ == m[i as int],
                    name == m[i as int].0,
                    vals == m[i as int].1,
                    i < m.len(),
                    vals.len() == e.values@.len(),
                    out@ + pairs_wire_from(name, vals, j as int) + wire_from(m, i + 1)
                        == spec_wire(m),
                decreases e.values@.len() - j,
            {
                out.extend_from_slice(e.name.as_slice());
                out.push(58);
                out.push(32);
                out.extend_from_slice(e.values[j].as_slice());
                out.push(13);
                out.push(10);
                proof {
                    assert(vals[j as int] == e.values@.map_values(|v: Vec<u8>| v@)[j as int]);
                    assert(out@ + pairs_wire_from(name, vals, j + 1) + wire_from(m, i + 1)
                        =~= spec_wire(m));
                }
                j = j + 1;
            }
            i = i + 1;
        }
        out
    }
}

} // verus!
