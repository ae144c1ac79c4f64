//! Byte-level utilities shared by the wire codec, the router and the
//! configuration parser.  Every function is specified against `Seq<u8>`.
//!
//! Wire text is modeled as bytes throughout the crate; the specifications
//! below (lowercasing, searching, trimming, splitting, decimal and
//! hexadecimal conversion) are the vocabulary of every other contract.

use vstd::prelude::*;

verus! {

// ---------------------------------------------------------------------------
// Classification and case folding
// ---------------------------------------------------------------------------

/// ASCII whitespace: tab, line feed, vertical tab, form feed, carriage
/// return, space.
pub open spec fn is_ws(b: u8) -> bool {
    b == 9 || b == 10 || b == 11 || b == 12 || b == 13 || b == 32
}

/// ASCII decimal digit.
pub open spec fn is_digit(b: u8) -> bool {
    48 <= b && b <= 57
}

/// ASCII lowercasing of a single byte.
pub open spec fn lower_byte(b: u8) -> u8 {
    if 65 <= b && b <= 90 {
        (b + 32) as u8
    } else {
        b
    }
}

/// ASCII lowercasing of a byte sequence.
pub open spec fn lower(s: Seq<u8>) -> Seq<u8> {
    s.map_values(|b: u8| lower_byte(b))
}

/// Lowercases the ASCII letters of `s` into a fresh vector.
pub fn to_lower(s: &[u8]) -> (r: Vec<u8>)
    ensures
        r@ == lower(s@),
{
    let mut r: Vec<u8> = Vec::new();
    let mut i: usize = 0;
    while i < s.len()
        invariant
            i <= s.len(),
            r@ == lower(s@.take(i as int)),
        decreases s.len() - i,
    {
        let b = s[i];
        if 65 <= b && b <= 90 {
            r.push(b + 32);
        } else {
            r.push(b);
        }
        proof {
            assert(lower(s@.take(i + 1 as int)) =~= lower(s@.take(i as int)).push(
                lower_byte(s@[i as int]),
            ));
        }
        i = i + 1;
    }
    proof {
        assert(s@.take(s@.len() as int) =~= s@);
    }
    r
}

/// Byte-for-byte equality of two slices.
pub fn bytes_eq(a: &[u8], b: &[u8]) -> (r: bool)
    ensures
        r == (a@ == b@),
{
    if a.len() != b.len() {
        return false;
    }
    let mut i: usize = 0;
    while i < a.len()
        invariant
            a.len() == b.len(),
            i <= a.len(),
            forall|j: int| 0 <= j < i ==> a@[j] == b@[j],
        decreases a.len() - i,
    {
        if a[i] != b[i] {
            return false;
        }
        i = i + 1;
    }
    proof {
        assert(a@ =~= b@);
    }
    true
}

/// Case-insensitive equality of two slices, folding ASCII letters.
pub fn eq_ignore_case(a: &[u8], b: &[u8]) -> (r: bool)
    ensures
        r == (lower(a@) == lower(b@)),
{
    let la = to_lower(a);
    let lb = to_lower(b);
    bytes_eq(la.as_slice(), lb.as_slice())
}

/// Copies a slice into a fresh vector.
pub fn to_vec(s: &[u8]) -> (r: Vec<u8>)
    ensures
        r@ == s@,
{
    vstd::slice::slice_to_vec(s)
}

// ---------------------------------------------------------------------------
// Searching
// ---------------------------------------------------------------------------

/// The needle `n` occurs in `h` starting at index `i`.
pub open spec fn is_match_at(h: Seq<u8>, n: Seq<u8>, i: int) -> bool {
    &&& 0 <= i
    &&& i + n.len() <= h.len()
    &&& forall|j: int| 0 <= j < n.len() ==> h[i + j] == n[j]
}

/// Index of the first occurrence of `n` in `h` at or after `i`.
pub open spec fn find_sub_from(h: Seq<u8>, n: Seq<u8>, i: int) -> Option<int>
    decreases h.len() - i,
{
    if i < 0 || i + n.len() > h.len() {
        None
    } else if is_match_at(h, n, i) {
        Some(i)
    } else {
        find_sub_from(h, n, i + 1)
    }
}

/// Index of the first occurrence of `n` in `h`, if any.
pub open spec fn find_sub(h: Seq<u8>, n: Seq<u8>) -> Option<int> {
    find_sub_from(h, n, 0)
}

/// `h` contains `n` somewhere.
pub open spec fn contains_sub(h: Seq<u8>, n: Seq<u8>) -> bool {
    exists|i: int| is_match_at(h, n, i)
}

/// A found index characterizes `find_sub_from`: no match strictly before it.
pub proof fn lemma_find_sub_from_some(h: Seq<u8>, n: Seq<u8>, i: int, k: int)
    requires
        0 <= i <= k,
        is_match_at(h, n, k),
        forall|j: int| i <= j < k ==> !is_match_at(h, n, j),
    ensures
        find_sub_from(h, n, i) == Some(k),
    decreases k - i,
{
    if i < k {
        lemma_find_sub_from_some(h, n, i + 1, k);
    }
}

/// If no match exists at or after `i`, `find_sub_from` returns `None`.
pub proof fn lemma_find_sub_from_none(h: Seq<u8>, n: Seq<u8>, i: int)
    requires
        0 <= i,
        forall|j: int| i <= j ==> !is_match_at(h, n, j),
    ensures
        find_sub_from(h, n, i) == None::<int>,
    decreases h.len() - i,
{
    if i + n.len() <= h.len() {
        lemma_find_sub_from_none(h, n, i + 1);
    }
}

/// What `find_sub` says about its result.
pub proof fn lemma_find_sub_props(h: Seq<u8>, n: Seq<u8>, i: int)
    requires
        0 <= i,
    ensures
        match find_sub_from(h, n, i) {
            Some(k) => i <= k && is_match_at(h, n, k) && forall|j: int|
                i <= j < k ==> !is_match_at(h, n, j),
            None => forall|j: int| j >= i ==> !is_match_at(h, n, j),
        },
    decreases h.len() - i,
{
    if i + n.len() > h.len() {
        assert forall|j: int| j >= i implies !is_match_at(h, n, j) by {}
    } else if is_match_at(h, n, i) {
    } else {
        lemma_find_sub_props(h, n, i + 1);
    }
}

/// Finds the first occurrence of `n` in `h`.
pub fn find(h: &[u8], n: &[u8]) -> (r: Option<usize>)
    ensures
        match r {
            Some(i) => find_sub(h@, n@) == Some(i as int),
            None => find_sub(h@, n@) == None::<int>,
        },
{
    if n.len() > h.len() {
        proof {
            lemma_find_sub_from_none(h@, n@, 0);
        }
        return None;
    }
    let bound = h.len() - n.len();
    let mut i: usize = 0;
    while i <= bound
        invariant
            bound == h.len() - n.len(),
            n.len() <= h.len(),
            i <= bound + 1,
            forall|j: int| 0 <= j < i ==> !is_match_at(h@, n@, j),
        decreases bound - i + 1,
    {
        let window = &h[i..i + n.len()];
        if bytes_eq(window, n) {
            proof {
                assert(window@ =~= h@.subrange(i as int, i + n@.len()));
                assert forall|j: int| 0 <= j < n@.len() implies h@[i + j] == n@[j] by {
                    assert(n@[j] == window@[j]);
                }
                lemma_find_sub_from_some(h@, n@, 0, i as int);
            }
            return Some(i);
        }
        proof {
            assert(window@ =~= h@.subrange(i as int, i + n@.len()));
            if is_match_at(h@, n@, i as int) {
                assert(window@ =~= n@);
            }
        }
        i = i + 1;
    }
    proof {
        assert forall|j: int| j >= 0 implies !is_match_at(h@, n@, j) by {
            if j > bound {
                assert(j + n@.len() > h@.len());
            }
        }
        lemma_find_sub_from_none(h@, n@, 0);
    }
    None
}

/// Whether `h` contains `n`.
pub fn contains(h: &[u8], n: &[u8]) -> (r: bool)
    ensures
        r == contains_sub(h@, n@),
{
    let f = find(h, n);
    proof {
        lemma_find_sub_props(h@, n@, 0);
    }
    f.is_some()
}

/// Index of the first occurrence of byte `b` in `s` at or after `i`.
pub open spec fn find_byte_from(s: Seq<u8>, b: u8, i: int) -> Option<int>
    decreases s.len() - i,
{
    if i < 0 || i >= s.len() {
        None
    } else if s[i] == b {
        Some(i)
    } else {
        find_byte_from(s, b, i + 1)
    }
}

/// Index of the first occurrence of byte `b` in `s`.
pub open spec fn find_byte(s: Seq<u8>, b: u8) -> Option<int> {
    find_byte_from(s, b, 0)
}

/// What `find_byte_from` says about its result.
pub proof fn lemma_find_byte_props(s: Seq<u8>, b: u8, i: int)
    requires
        0 <= i,
    ensures
        match find_byte_from(s, b, i) {
            Some(k) => i <= k < s.len() && s[k] == b && forall|j: int| i <= j < k ==> s[j] != b,
            None => forall|j: int| i <= j < s.len() ==> s[j] != b,
        },
    decreases s.len() - i,
{
    if i < s.len() && s[i] != b {
        lemma_find_byte_props(s, b, i + 1);
    }
}

/// Finds the first occurrence of byte `b` in `s`.
pub fn index_of(s: &[u8], b: u8) -> (r: Option<usize>)
    ensures
        match r {
            Some(i) => find_byte(s@, b) == Some(i as int),
            None => find_byte(s@, b) == None::<int>,
        },
{
    let mut i: usize = 0;
    while i < s.len()
        invariant
            i <= s.len(),
            forall|j: int| 0 <= j < i ==> s@[j] != b,
        decreases s.len() - i,
    {
        if s[i] == b {
            proof {
                lemma_find_byte_from_found(s@, b, 0, i as int);
            }
            return Some(i);
        }
        i = i + 1;
    }
    proof {
        lemma_find_byte_from_missing(s@, b, 0);
    }
    None
}

pub proof fn lemma_find_byte_from_found(s: Seq<u8>, b: u8, i: int, k: int)
    requires
        0 <= i <= k < s.len(),
        s[k] == b,
        forall|j: int| i <= j < k ==> s[j] != b,
    ensures
        find_byte_from(s, b, i) == Some(k),
    decreases k - i,
{
    if i < k {
        lemma_find_byte_from_found(s, b, i + 1, k);
    }
}

pub proof fn lemma_find_byte_from_missing(s: Seq<u8>, b: u8, i: int)
    requires
        0 <= i,
        forall|j: int| i <= j < s.len() ==> s[j] != b,
    ensures
        find_byte_from(s, b, i) == None::<int>,
    decreases s.len() - i,
{
    if i < s.len() {
        lemma_find_byte_from_missing(s, b, i + 1);
    }
}

/// Index of the last occurrence of byte `b` at an index below `i`.
pub open spec fn rfind_byte_before(s: Seq<u8>, b: u8, i: int) -> Option<int>
    decreases i,
{
    if i <= 0 || i > s.len() {
        None
    } else if s[i - 1] == b {
        Some(i - 1)
    } else {
        rfind_byte_before(s, b, i - 1)
    }
}

/// Index of the last occurrence of byte `b` in `s`.
pub open spec fn rfind_byte(s: Seq<u8>, b: u8) -> Option<int> {
    rfind_byte_before(s, b, s.len() as int)
}

/// Finds the last occurrence of byte `b` in `s`.
pub fn rindex_of(s: &[u8], b: u8) -> (r: Option<usize>)
    ensures
        match r {
            Some(i) => rfind_byte(s@, b) == Some(i as int) && i < s@.len(),
            None => rfind_byte(s@, b) == None::<int>,
        },
{
    let mut i: usize = s.len();
    while i > 0
        invariant
            i <= s.len(),
            rfind_byte(s@, b) == rfind_byte_before(s@, b, i as int),
        decreases i,
    {
        if s[i - 1] == b {
            return Some(i - 1);
        }
        i = i - 1;
    }
    None
}

/// `s` contains the byte `b`.
pub open spec fn contains_byte(s: Seq<u8>, b: u8) -> bool {
    exists|i: int| 0 <= i < s.len() && s[i] == b
}

/// Whether `s` contains byte `b`.
pub fn has_byte(s: &[u8], b: u8) -> (r: bool)
    ensures
        r == contains_byte(s@, b),
{
    let f = index_of(s, b);
    proof {
        lemma_find_byte_props(s@, b, 0);
    }
    f.is_some()
}

// ---------------------------------------------------------------------------
// Prefixes and suffixes
// ---------------------------------------------------------------------------

/// `p` is a prefix of `s`.
pub open spec fn is_prefix(p: Seq<u8>, s: Seq<u8>) -> bool {
    p.len() <= s.len() && s.subrange(0, p.len() as int) == p
}

/// `p` is a suffix of `s`.
pub open spec fn is_suffix(p: Seq<u8>, s: Seq<u8>) -> bool {
    p.len() <= s.len() && s.subrange(s.len() - p.len(), s.len() as int) == p
}

/// Whether `s` starts with `p`.
pub fn starts_with(s: &[u8], p: &[u8]) -> (r: bool)
    ensures
        r == is_prefix(p@, s@),
{
    if p.len() > s.len() {
        return false;
    }
    let head = &s[0..p.len()];
    let r = bytes_eq(head, p);
    proof {
        assert(head@ =~= s@.subrange(0, p@.len() as int));
    }
    r
}

/// Whether `s` ends with `p`.
pub fn ends_with(s: &[u8], p: &[u8]) -> (r: bool)
    ensures
        r == is_suffix(p@, s@),
{
    if p.len() > s.len() {
        return false;
    }
    let tail = &s[s.len() - p.len()..s.len()];
    let r = bytes_eq(tail, p);
    proof {
        assert(tail@ =~= s@.subrange(s@.len() - p@.len(), s@.len() as int));
    }
    r
}

// ---------------------------------------------------------------------------
// Trimming
// ---------------------------------------------------------------------------

/// First index at or after `i` holding a byte that is not ASCII whitespace.
pub open spec fn first_non_ws(s: Seq<u8>, i: int) -> int
    decreases s.len() - i,
{
    if i < 0 || i >= s.len() {
        s.len() as int
    } else if is_ws(s[i]) {
        first_non_ws(s, i + 1)
    } else {
        i
    }
}

/// One past the last byte at an index below `i` that is not ASCII whitespace.
pub open spec fn last_non_ws_end(s: Seq<u8>, i: int) -> int
    decreases i,
{
    if i <= 0 || i > s.len() {
        0
    } else if is_ws(s[i - 1]) {
        last_non_ws_end(s, i - 1)
    } else {
        i
    }
}

/// `s` with leading and trailing ASCII whitespace removed.
pub open spec fn spec_trim(s: Seq<u8>) -> Seq<u8> {
    let a = first_non_ws(s, 0);
    let b = last_non_ws_end(s, s.len() as int);
    if a <= b {
        s.subrange(a, b)
    } else {
        Seq::empty()
    }
}

pub proof fn lemma_first_non_ws_bounds(s: Seq<u8>, i: int)
    requires
        0 <= i <= s.len(),
    ensures
        i <= first_non_ws(s, i) <= s.len(),
        forall|j: int| i <= j < first_non_ws(s, i) ==> is_ws(s[j]),
        first_non_ws(s, i) < s.len() ==> !is_ws(s[first_non_ws(s, i)]),
    decreases s.len() - i,
{
    if i < s.len() && is_ws(s[i]) {
        lemma_first_non_ws_bounds(s, i + 1);
    }
}

proof fn lemma_last_non_ws_end_bounds(s: Seq<u8>, i: int)
    requires
        0 <= i <= s.len(),
    ensures
        0 <= last_non_ws_end(s, i) <= i,
        forall|j: int| last_non_ws_end(s, i) <= j < i ==> is_ws(s[j]),
        last_non_ws_end(s, i) > 0 ==> !is_ws(s[last_non_ws_end(s, i) - 1]),
    decreases i,
{
    if i > 0 && is_ws(s[i - 1]) {
        lemma_last_non_ws_end_bounds(s, i - 1);
    }
}

/// Whether `b` is ASCII whitespace.
pub fn is_ws_byte(b: u8) -> (r: bool)
    ensures
        r == is_ws(b),
{
    b == 9 || b == 10 || b == 11 || b == 12 || b == 13 || b == 32
}

/// Removes leading and trailing ASCII whitespace.
pub fn trim(s: &[u8]) -> (r: Vec<u8>)
    ensures
        r@ == spec_trim(s@),
{
    let mut a: usize = 0;
    while a < s.len() && is_ws_byte(s[a])
        invariant
            a <= s.len(),
            first_non_ws(s@, 0) == first_non_ws(s@, a as int),
        decreases s.len() - a,
    {
        a = a + 1;
    }
    let mut b: usize = s.len();
    while b > a && is_ws_byte(s[b - 1])
        invariant
            a <= b <= s.len(),
            a == first_non_ws(s@, 0),
            a < s@.len() ==> !is_ws(s@[a as int]),
            last_non_ws_end(s@, s@.len() as int) == last_non_ws_end(s@, b as int),
        decreases b,
    {
        b = b - 1;
    }
    proof {
        lemma_first_non_ws_bounds(s@, 0);
        lemma_last_non_ws_end_bounds(s@, b as int);
        if b > a {
            assert(last_non_ws_end(s@, b as int) == b);
        } else {
            assert(b == a);
            assert(last_non_ws_end(s@, a as int) <= a);
            if first_non_ws(s@, 0) > last_non_ws_end(s@, s@.len() as int) {
                assert(spec_trim(s@) =~= s@.subrange(a as int, b as int));
            }
        }
    }
    let r = to_vec(&s[a..b]);
    proof {
        assert(r@ =~= s@.subrange(a as int, b as int));
    }
    r
}

/// First index at or after `i` holding whitespace, or the length.
pub open spec fn tok_end(s: Seq<u8>, i: int) -> int
    decreases s.len() - i,
{
    if i < 0 || i >= s.len() {
        s.len() as int
    } else if is_ws(s[i]) {
        i
    } else {
        tok_end(s, i + 1)
    }
}

proof fn lemma_tok_end_bounds(s: Seq<u8>, i: int)
    requires
        0 <= i <= s.len(),
    ensures
        i <= tok_end(s, i) <= s.len(),
    decreases s.len() - i,
{
    if i < s.len() && !is_ws(s[i]) {
        lemma_tok_end_bounds(s, i + 1);
    }
}

/// Extracts the next whitespace-separated token at or after `from`:
/// the token and the index just past it.
pub fn next_token(s: &[u8], from: usize) -> (r: Option<(Vec<u8>, usize)>)
    requires
        from <= s@.len(),
    ensures
        match r {
            Some(t) => {
                let a = first_non_ws(s@, from as int);
                &&& a < s@.len()
                &&& t.0@ == s@.subrange(a, tok_end(s@, a))
                &&& t.1 == tok_end(s@, a)
                &&& from <= t.1 <= s@.len()
                &&& t.0@.len() > 0
            },
            None => first_non_ws(s@, from as int) == s@.len(),
        },
{
    proof {
        lemma_first_non_ws_bounds(s@, from as int);
    }
    let mut a: usize = from;
    while a < s.len() && is_ws_byte(s[a])
        invariant
            from <= a <= s.len(),
            first_non_ws(s@, from as int) == first_non_ws(s@, a as int),
        decreases s.len() - a,
    {
        a = a + 1;
    }
    if a >= s.len() {
        return None;
    }
    proof {
        lemma_tok_end_bounds(s@, a as int);
    }
    let mut e: usize = a;
    while e < s.len() && !is_ws_byte(s[e])
        invariant
            a <= e <= s.len(),
            tok_end(s@, a as int) == tok_end(s@, e as int),
        decreases s.len() - e,
    {
        e = e + 1;
    }
    let tok = to_vec(&s[a..e]);
    proof {
        assert(tok@ =~= s@.subrange(a as int, e as int));
        assert(first_non_ws(s@, from as int) == a);
        assert(tok_end(s@, a as int) == e);
    }
    Some((tok, e))
}

/// Index of the first byte at or after `i` that differs from `b`.
pub open spec fn skip_byte(s: Seq<u8>, b: u8, i: int) -> int
    decreases s.len() - i,
{
    if i < 0 || i >= s.len() {
        s.len() as int
    } else if s[i] == b {
        skip_byte(s, b, i + 1)
    } else {
        i
    }
}

/// `s` with every leading occurrence of `b` removed.
pub open spec fn spec_trim_leading(s: Seq<u8>, b: u8) -> Seq<u8> {
    s.subrange(skip_byte(s, b, 0), s.len() as int)
}

pub proof fn lemma_skip_byte_bounds(s: Seq<u8>, b: u8, i: int)
    requires
        0 <= i <= s.len(),
    ensures
        i <= skip_byte(s, b, i) <= s.len(),
        forall|j: int| i <= j < skip_byte(s, b, i) ==> s[j] == b,
        skip_byte(s, b, i) < s.len() ==> s[skip_byte(s, b, i)] != b,
    decreases s.len() - i,
{
    if i < s.len() && s[i] == b {
        lemma_skip_byte_bounds(s, b, i + 1);
    }
}

/// Removes every leading occurrence of byte `b`.
pub fn trim_leading(s: &[u8], b: u8) -> (r: Vec<u8>)
    ensures
        r@ == spec_trim_leading(s@, b),
{
    let mut a: usize = 0;
    while a < s.len() && s[a] == b
        invariant
            a <= s.len(),
            skip_byte(s@, b, 0) == skip_byte(s@, b, a as int),
        decreases s.len() - a,
    {
        a = a + 1;
    }
    let r = to_vec(&s[a..s.len()]);
    proof {
        assert(r@ =~= s@.subrange(a as int, s@.len() as int));
    }
    r
}

/// One past the last byte at an index below `i` that differs from `b`.
pub open spec fn skip_byte_rev(s: Seq<u8>, b: u8, i: int) -> int
    decreases i,
{
    if i <= 0 || i > s.len() {
        0
    } else if s[i - 1] == b {
        skip_byte_rev(s, b, i - 1)
    } else {
        i
    }
}

/// `s` with every leading and trailing occurrence of `b` removed.
pub open spec fn spec_trim_byte(s: Seq<u8>, b: u8) -> Seq<u8> {
    let a = skip_byte(s, b, 0);
    let e = skip_byte_rev(s, b, s.len() as int);
    if a <= e {
        s.subrange(a, e)
    } else {
        Seq::empty()
    }
}

proof fn lemma_skip_byte_rev_bounds(s: Seq<u8>, b: u8, i: int)
    requires
        0 <= i <= s.len(),
    ensures
        0 <= skip_byte_rev(s, b, i) <= i,
        forall|j: int| skip_byte_rev(s, b, i) <= j < i ==> s[j] == b,
        skip_byte_rev(s, b, i) > 0 ==> s[skip_byte_rev(s, b, i) - 1] != b,
    decreases i,
{
    if i > 0 && s[i - 1] == b {
        lemma_skip_byte_rev_bounds(s, b, i - 1);
    }
}

/// Removes every leading and trailing occurrence of byte `b`.
pub fn trim_byte(s: &[u8], b: u8) -> (r: Vec<u8>)
    ensures
        r@ == spec_trim_byte(s@, b),
{
    let mut a: usize = 0;
    while a < s.len() && s[a] == b
        invariant
            a <= s.len(),
            skip_byte(s@, b, 0) == skip_byte(s@, b, a as int),
        decreases s.len() - a,
    {
        a = a + 1;
    }
    let mut e: usize = s.len();
    while e > a && s[e - 1] == b
        invariant
            a <= e <= s.len(),
            a == skip_byte(s@, b, 0),
            a < s@.len() ==> s@[a as int] != b,
            skip_byte_rev(s@, b, s@.len() as int) == skip_byte_rev(s@, b, e as int),
        decreases e,
    {
        e = e - 1;
    }
    proof {
        lemma_skip_byte_bounds(s@, b, 0);
        lemma_skip_byte_rev_bounds(s@, b, e as int);
        if e > a {
            assert(skip_byte_rev(s@, b, e as int) == e);
        } else {
            assert(e == a);
            if skip_byte(s@, b, 0) > skip_byte_rev(s@, b, s@.len() as int) {
                assert(spec_trim_byte(s@, b) =~= s@.subrange(a as int, e as int));
            }
        }
    }
    let r = to_vec(&s[a..e]);
    proof {
        assert(r@ =~= s@.subrange(a as int, e as int));
    }
    r
}

/// A position characterizes `first_non_ws`: whitespace before it, none
/// at it.
pub proof fn lemma_first_non_ws_found(s: Seq<u8>, i: int, a: int)
    requires
        0 <= i <= a <= s.len(),
        forall|j: int| i <= j < a ==> is_ws(s[j]),
        a == s.len() || !is_ws(s[a]),
    ensures
        first_non_ws(s, i) == a,
    decreases a - i,
{
    if i < a {
        lemma_first_non_ws_found(s, i + 1, a);
    }
}

/// A position characterizes `tok_end`: token bytes before it, whitespace
/// or the end at it.
pub proof fn lemma_tok_end_found(s: Seq<u8>, i: int, e: int)
    requires
        0 <= i <= e <= s.len(),
        forall|j: int| i <= j < e ==> !is_ws(s[j]),
        e == s.len() || is_ws(s[e]),
    ensures
        tok_end(s, i) == e,
    decreases e - i,
{
    if i < e {
        lemma_tok_end_found(s, i + 1, e);
    }
}

/// Trimming is the identity on a sequence without surrounding
/// whitespace.
pub proof fn lemma_trim_noop(s: Seq<u8>)
    requires
        s.len() == 0 || (!is_ws(s[0]) && !is_ws(s[s.len() - 1])),
    ensures
        spec_trim(s) == s,
{
    if s.len() == 0 {
        lemma_first_non_ws_found(s, 0, 0);
        assert(last_non_ws_end(s, 0) == 0);
        assert(spec_trim(s) =~= s);
    } else {
        lemma_first_non_ws_found(s, 0, 0);
        assert(last_non_ws_end(s, s.len() as int) == s.len());
        assert(spec_trim(s) =~= s);
    }
}

/// Trimming a single leading space leaves a trimmed sequence.
pub proof fn lemma_trim_space_prefix(v: Seq<u8>)
    requires
        spec_trim(v) == v,
    ensures
        spec_trim(seq![32u8] + v) == v,
{
    let s = seq![32u8] + v;
    if v.len() == 0 {
        assert(s.len() == 1 && s[0] == 32);
        lemma_first_non_ws_found(s, 0, 1);
        assert(last_non_ws_end(s, 0) == 0);
        assert(last_non_ws_end(s, 1) == 0);
        assert(spec_trim(s) =~= v);
    } else {
        assert(!is_ws(v[0]) && !is_ws(v[v.len() - 1])) by {
            lemma_first_non_ws_bounds(v, 0);
            lemma_last_non_ws_end_bounds(v, v.len() as int);
            if is_ws(v[0]) {
                assert(first_non_ws(v, 0) >= 1);
                assert(spec_trim(v).len() < v.len());
            }
            if !is_ws(v[0]) && is_ws(v[v.len() - 1]) {
                assert(first_non_ws(v, 0) == 0);
                assert(last_non_ws_end(v, v.len() as int) < v.len());
                assert(spec_trim(v).len() < v.len());
            }
        }
        assert(s[1] == v[0]);
        lemma_first_non_ws_found(s, 0, 1);
        assert(s[s.len() - 1] == v[v.len() - 1]);
        assert(last_non_ws_end(s, s.len() as int) == s.len());
        assert(spec_trim(s) =~= v);
    }
}

/// Searching after a prefix finds what searching the suffix finds.
pub proof fn lemma_find_byte_shift(a: Seq<u8>, b: Seq<u8>, x: u8, j: int)
    requires
        0 <= j,
    ensures
        find_byte_from(a + b, x, a.len() + j) == match find_byte_from(b, x, j) {
            Some(k) => Some(a.len() + k),
            None => None,
        },
    decreases b.len() - j,
{
    if j < b.len() {
        assert((a + b)[a.len() + j] == b[j]);
        if b[j] != x {
            lemma_find_byte_shift(a, b, x, j + 1);
        }
    }
}

/// Splitting after a prefix yields what splitting the suffix yields.
pub proof fn lemma_split_shift(a: Seq<u8>, b: Seq<u8>, x: u8, j: int)
    requires
        0 <= j <= b.len(),
    ensures
        spec_split_from(a + b, x, a.len() + j) == spec_split_from(b, x, j),
    decreases b.len() - j + 1,
{
    lemma_find_byte_shift(a, b, x, j);
    lemma_find_byte_props(b, x, j);
    match find_byte_from(b, x, j) {
        None => {
            assert((a + b).subrange(a.len() + j, (a + b).len() as int) =~= b.subrange(
                j,
                b.len() as int,
            ));
        },
        Some(k) => {
            lemma_split_shift(a, b, x, k + 1);
            assert((a + b).subrange(a.len() + j, a.len() + k) =~= b.subrange(j, k));
        },
    }
}

// ---------------------------------------------------------------------------
// Splitting
// ---------------------------------------------------------------------------

/// The pieces of `s` from index `i` on, split at every occurrence of `b`.
pub open spec fn spec_split_from(s: Seq<u8>, b: u8, i: int) -> Seq<Seq<u8>>
    decreases s.len() - i,
{
    match find_byte_from(s, b, i) {
        None => seq![s.subrange(i, s.len() as int)],
        Some(k) => if i <= k < s.len() {
            seq![s.subrange(i, k)] + spec_split_from(s, b, k + 1)
        } else {
            seq![s.subrange(i, s.len() as int)]
        },
    }
}

/// Splits `s` at every occurrence of `b`, keeping empty pieces.
pub open spec fn spec_split(s: Seq<u8>, b: u8) -> Seq<Seq<u8>> {
    spec_split_from(s, b, 0)
}

/// Finds the first occurrence of byte `b` in `s` at or after `from`.
pub fn index_of_from(s: &[u8], b: u8, from: usize) -> (r: Option<usize>)
    requires
        from <= s@.len(),
    ensures
        match r {
            Some(i) => from <= i && find_byte_from(s@, b, from as int) == Some(i as int),
            None => find_byte_from(s@, b, from as int) == None::<int>,
        },
{
    let mut i: usize = from;
    while i < s.len()
        invariant
            from <= i <= s.len(),
            find_byte_from(s@, b, from as int) == find_byte_from(s@, b, i as int),
        decreases s.len() - i,
    {
        if s[i] == b {
            return Some(i);
        }
        i = i + 1;
    }
    None
}

/// Splits `s` at every occurrence of `b`.
pub fn split_byte(s: &[u8], b: u8) -> (r: Vec<Vec<u8>>)
    ensures
        r@.map_values(|v: Vec<u8>| v@) == spec_split(s@, b),
{
    let mut r: Vec<Vec<u8>> = Vec::new();
    let mut pos: usize = 0;
    loop
        invariant
            pos <= s.len(),
            spec_split(s@, b) == r@.map_values(|v: Vec<u8>| v@) + spec_split_from(
                s@,
                b,
                pos as int,
            ),
        decreases s.len() - pos,
    {
        proof {
            lemma_find_byte_props(s@, b, pos as int);
        }
        match index_of_from(s, b, pos) {
            None => {
                let piece = to_vec(&s[pos..s.len()]);
                r.push(piece);
                proof {
                    assert(r@.map_values(|v: Vec<u8>| v@) =~= spec_split(s@, b));
                }
                return r;
            },
            Some(k) => {
                let piece = to_vec(&s[pos..k]);
                r.push(piece);
                proof {
                    assert(spec_split_from(s@, b, pos as int) == seq![
                        s@.subrange(pos as int, k as int),
                    ] + spec_split_from(s@, b, k + 1));
                    assert(r@.map_values(|v: Vec<u8>| v@) + spec_split_from(s@, b, k + 1)
                        =~= spec_split(s@, b));
                }
                pos = k + 1;
            },
        }
    }
}

/// Splits `s` at every occurrence of the non-empty separator `sep`,
/// keeping empty pieces.
pub open spec fn spec_split_seq(s: Seq<u8>, sep: Seq<u8>) -> Seq<Seq<u8>>
    decreases s.len(),
{
    match find_sub(s, sep) {
        None => seq![s],
        Some(k) => if 0 <= k && sep.len() > 0 && k + sep.len() <= s.len() {
            seq![s.subrange(0, k)] + spec_split_seq(
                s.subrange(k + sep.len(), s.len() as int),
                sep,
            )
        } else {
            seq![s]
        },
    }
}

/// Splits `s` at every occurrence of `sep`.
pub fn split_seq(s: &[u8], sep: &[u8]) -> (r: Vec<Vec<u8>>)
    requires
        sep@.len() > 0,
    ensures
        r@.map_values(|v: Vec<u8>| v@) == spec_split_seq(s@, sep@),
{
    let mut r: Vec<Vec<u8>> = Vec::new();
    let mut pos: usize = 0;
    proof {
        assert(s@.subrange(0, s@.len() as int) =~= s@);
        assert(r@.map_values(|v: Vec<u8>| v@) + spec_split_seq(s@, sep@) =~= spec_split_seq(
            s@,
            sep@,
        ));
    }
    loop
        invariant
            pos <= s.len(),
            spec_split_seq(s@, sep@) == r@.map_values(|v: Vec<u8>| v@) + spec_split_seq(
                s@.subrange(pos as int, s@.len() as int),
                sep@,
            ),
        decreases s.len() - pos,
    {
        let slen = s.len();
        let rest = &s[pos..slen];
        proof {
            lemma_find_sub_props(rest@, sep@, 0);
        }
        match find(rest, sep) {
            None => {
                let piece = to_vec(rest);
                r.push(piece);
                proof {
                    assert(spec_split_seq(rest@, sep@) =~= seq![rest@]);
                    assert(r@.map_values(|v: Vec<u8>| v@) =~= spec_split_seq(s@, sep@));
                }
                return r;
            },
            Some(k) => {
                let piece = to_vec(&rest[0..k]);
                r.push(piece);
                proof {
                    let new_rest = s@.subrange(pos + k + sep@.len(), s@.len() as int);
                    assert(piece@ =~= rest@.subrange(0, k as int));
                    assert(rest@.subrange(k + sep@.len(), rest@.len() as int) =~= new_rest);
                    assert(spec_split_seq(rest@, sep@) == seq![piece@] + spec_split_seq(
                        new_rest,
                        sep@,
                    ));
                    assert(r@.map_values(|v: Vec<u8>| v@) + spec_split_seq(new_rest, sep@)
                        =~= spec_split_seq(s@, sep@));
                }
                pos = pos + k + sep.len();
            },
        }
    }
}

/// A split piece with a trailing carriage return removed.
pub open spec fn strip_cr(l: Seq<u8>) -> Seq<u8> {
    if l.len() > 0 && l[l.len() - 1] == 13 {
        l.subrange(0, l.len() - 1)
    } else {
        l
    }
}

/// The lines of `s`: split at line feeds, dropping one trailing empty
/// piece, then removing one trailing carriage return from each line.
pub open spec fn spec_lines(s: Seq<u8>) -> Seq<Seq<u8>> {
    let parts = spec_split(s, 10);
    let kept = if parts.len() > 0 && parts.last().len() == 0 {
        parts.drop_last()
    } else {
        parts
    };
    kept.map_values(|l: Seq<u8>| strip_cr(l))
}

/// Splits `s` into lines.
pub fn lines(s: &[u8]) -> (r: Vec<Vec<u8>>)
    ensures
        r@.map_values(|v: Vec<u8>| v@) == spec_lines(s@),
{
    let mut parts = split_byte(s, 10);
    let ghost all = parts@.map_values(|v: Vec<u8>| v@);
    if parts.len() > 0 && parts[parts.len() - 1].len() == 0 {
        parts.pop();
        proof {
            assert(parts@.map_values(|v: Vec<u8>| v@) =~= all.drop_last());
        }
    }
    let ghost kept = parts@.map_values(|v: Vec<u8>| v@);
    let mut r: Vec<Vec<u8>> = Vec::new();
    let mut i: usize = 0;
    while i < parts.len()
        invariant
            i <= parts.len(),
            kept == parts@.map_values(|v: Vec<u8>| v@),
            r@.map_values(|v: Vec<u8>| v@) =~= kept.take(i as int).map_values(
                |l: Seq<u8>| strip_cr(l),
            ),
        decreases parts.len() - i,
    {
        let line = &parts[i];
        let n = line.len();
        let stripped: Vec<u8> = if n > 0 && line[n - 1] == 13 {
            let v = to_vec(&line.as_slice()[0..n - 1]);
            proof {
                assert(v@ =~= strip_cr(line@));
            }
            v
        } else {
            to_vec(line.as_slice())
        };
        r.push(stripped);
        proof {
            assert(kept.take(i + 1).map_values(|l: Seq<u8>| strip_cr(l)) =~= kept.take(
                i as int,
            ).map_values(|l: Seq<u8>| strip_cr(l)).push(strip_cr(kept[i as int])));
        }
        i = i + 1;
    }
    proof {
        assert(kept.take(kept.len() as int) =~= kept);
    }
    r
}

// ---------------------------------------------------------------------------
// Decimal and hexadecimal numbers
// ---------------------------------------------------------------------------

/// Every byte of `s` is a decimal digit.
pub open spec fn all_digits(s: Seq<u8>) -> bool {
    forall|i: int| 0 <= i < s.len() ==> is_digit(s[i])
}

/// The value of a sequence of decimal digits.
pub open spec fn dec_val(s: Seq<u8>) -> nat
    decreases s.len(),
{
    if s.len() == 0 {
        0
    } else {
        dec_val(s.drop_last()) * 10 + (s.last() - 48) as nat
    }
}

/// Digit values never shrink when digits are appended on the right.
proof fn lemma_dec_val_monotone(s: Seq<u8>, i: int)
    requires
        0 <= i <= s.len(),
    ensures
        dec_val(s.take(i)) <= dec_val(s),
    decreases s.len() - i,
{
    if i < s.len() {
        lemma_dec_val_monotone(s, i + 1);
        assert(s.take(i + 1).drop_last() =~= s.take(i));
        assert(dec_val(s.take(i + 1)) == dec_val(s.take(i)) * 10 + (s.take(i + 1).last()
            - 48) as nat);
    } else {
        assert(s.take(i) =~= s);
    }
}

/// Parses an unsigned decimal number; `None` on a non-digit, an empty
/// input, or overflow of `usize`.
pub fn parse_dec(s: &[u8]) -> (r: Option<usize>)
    ensures
        match r {
            Some(v) => s@.len() > 0 && all_digits(s@) && v == dec_val(s@) && dec_val(s@)
                <= usize::MAX,
            None => s@.len() == 0 || !all_digits(s@) || dec_val(s@) > usize::MAX,
        },
{
    if s.len() == 0 {
        return None;
    }
    let mut acc: usize = 0;
    let mut i: usize = 0;
    while i < s.len()
        invariant
            i <= s.len(),
            s@.len() > 0,
            all_digits(s@.take(i as int)),
            acc == dec_val(s@.take(i as int)),
        decreases s.len() - i,
    {
        let b = s[i];
        if !(48 <= b && b <= 57) {
            assert(!is_digit(s@[i as int]));
            return None;
        }
        let d = (b - 48) as usize;
        proof {
            assert(s@.take(i + 1).drop_last() =~= s@.take(i as int));
            assert(s@.take(i + 1).last() == s@[i as int]);
        }
        if acc > (usize::MAX - d) / 10 {
            proof {
                assert(acc * 10 + d > usize::MAX) by (nonlinear_arith)
                    requires
                        acc > (usize::MAX - d) / 10,
                        d <= 9,
                {}
                assert(dec_val(s@.take(i + 1)) > usize::MAX);
                lemma_dec_val_monotone(s@, i + 1);
            }
            return None;
        }
        proof {
            assert(acc * 10 + d <= usize::MAX) by (nonlinear_arith)
                requires
                    acc <= (usize::MAX - d) / 10,
                    d <= 9,
            {}
        }
        acc = acc * 10 + d;
        i = i + 1;
    }
    proof {
        assert(s@.take(s@.len() as int) =~= s@);
    }
    Some(acc)
}

/// The value of a decimal digit string if it parses as a `usize`.
pub open spec fn dec_opt(s: Seq<u8>) -> Option<int> {
    if s.len() > 0 && all_digits(s) && dec_val(s) <= usize::MAX {
        Some(dec_val(s) as int)
    } else {
        None
    }
}

/// ASCII hexadecimal digit.
pub open spec fn is_hex_digit(b: u8) -> bool {
    is_digit(b) || (97 <= b && b <= 102) || (65 <= b && b <= 70)
}

/// The value of one hexadecimal digit.
pub open spec fn hex_digit_val(b: u8) -> nat {
    if is_digit(b) {
        (b - 48) as nat
    } else if 97 <= b && b <= 102 {
        (b - 87) as nat
    } else if 65 <= b && b <= 70 {
        (b - 55) as nat
    } else {
        0
    }
}

/// Every byte of `s` is a hexadecimal digit.
pub open spec fn all_hex_digits(s: Seq<u8>) -> bool {
    forall|i: int| 0 <= i < s.len() ==> is_hex_digit(s[i])
}

/// The value of a sequence of hexadecimal digits.
pub open spec fn hex_val(s: Seq<u8>) -> nat
    decreases s.len(),
{
    if s.len() == 0 {
        0
    } else {
        hex_val(s.drop_last()) * 16 + hex_digit_val(s.last())
    }
}

proof fn lemma_hex_val_monotone(s: Seq<u8>, i: int)
    requires
        0 <= i <= s.len(),
    ensures
        hex_val(s.take(i)) <= hex_val(s),
    decreases s.len() - i,
{
    if i < s.len() {
        lemma_hex_val_monotone(s, i + 1);
        assert(s.take(i + 1).drop_last() =~= s.take(i));
        assert(hex_val(s.take(i + 1)) == hex_val(s.take(i)) * 16 + hex_digit_val(
            s.take(i + 1).last(),
        ));
    } else {
        assert(s.take(i) =~= s);
    }
}

/// Parses an unsigned hexadecimal number; `None` on a non-hex digit, an
/// empty input, or overflow of `usize`.
pub fn parse_hex(s: &[u8]) -> (r: Option<usize>)
    ensures
        match r {
            Some(v) => s@.len() > 0 && all_hex_digits(s@) && v == hex_val(s@) && hex_val(s@)
                <= usize::MAX,
            None => s@.len() == 0 || !all_hex_digits(s@) || hex_val(s@) > usize::MAX,
        },
{
    if s.len() == 0 {
        return None;
    }
    let mut acc: usize = 0;
    let mut i: usize = 0;
    while i < s.len()
        invariant
            i <= s.len(),
            s@.len() > 0,
            all_hex_digits(s@.take(i as int)),
            acc == hex_val(s@.take(i as int)),
        decreases s.len() - i,
    {
        let b = s[i];
        let d: usize = if 48 <= b && b <= 57 {
            (b - 48) as usize
        } else if 97 <= b && b <= 102 {
            (b - 87) as usize
        } else if 65 <= b && b <= 70 {
            (b - 55) as usize
        } else {
            assert(!is_hex_digit(s@[i as int]));
            return None;
        };
        assert(d == hex_digit_val(s@[i as int]));
        proof {
            assert(s@.take(i + 1).drop_last() =~= s@.take(i as int));
            assert(s@.take(i + 1).last() == s@[i as int]);
        }
        if acc > (usize::MAX - d) / 16 {
            proof {
                assert(acc * 16 + d > usize::MAX) by (nonlinear_arith)
                    requires
                        acc > (usize::MAX - d) / 16,
                        d <= 15,
                {}
                assert(hex_val(s@.take(i + 1)) > usize::MAX);
                lemma_hex_val_monotone(s@, i + 1);
            }
            return None;
        }
        proof {
            assert(acc * 16 + d <= usize::MAX) by (nonlinear_arith)
                requires
                    acc <= (usize::MAX - d) / 16,
                    d <= 15,
            {}
        }
        acc = acc * 16 + d;
        i = i + 1;
    }
    proof {
        assert(s@.take(s@.len() as int) =~= s@);
    }
    Some(acc)
}

/// The decimal digits of `n`, most significant first.
pub open spec fn dec_str(n: nat) -> Seq<u8>
    decreases n,
{
    if n < 10 {
        seq![(48 + n) as u8]
    } else {
        dec_str(n / 10).push((48 + n % 10) as u8)
    }
}

/// Formats `n` in decimal.
pub fn fmt_dec(n: u64) -> (r: Vec<u8>)
    ensures
        r@ == dec_str(n as nat),
    decreases n,
{
    if n < 10 {
        let mut r: Vec<u8> = Vec::new();
        r.push(48 + n as u8);
        proof {
            assert(r@ =~= dec_str(n as nat));
        }
        r
    } else {
        let mut r = fmt_dec(n / 10);
        r.push(48 + (n % 10) as u8);
        r
    }
}

/// A formatted decimal number is all digits, non-empty, and reads back to
/// the same value.
pub proof fn lemma_dec_str_val(n: nat)
    ensures
        dec_str(n).len() > 0,
        all_digits(dec_str(n)),
        dec_val(dec_str(n)) == n,
    decreases n,
{
    if n < 10 {
        assert(dec_str(n) =~= seq![(48 + n) as u8]);
        assert(dec_str(n).drop_last() =~= Seq::<u8>::empty());
        assert(dec_val(Seq::<u8>::empty()) == 0);
        assert(dec_str(n).last() == (48 + n) as u8);
        assert(dec_val(dec_str(n)) == 0 * 10 + ((48 + n) as u8 - 48) as nat);
    } else {
        lemma_dec_str_val(n / 10);
        let s = dec_str(n);
        assert(s =~= dec_str(n / 10).push((48 + n % 10) as u8));
        assert(s.drop_last() =~= dec_str(n / 10));
        assert(s.last() == (48 + n % 10) as u8);
        assert(dec_val(s) == dec_val(dec_str(n / 10)) * 10 + (n % 10));
        assert(n / 10 * 10 + n % 10 == n) by (nonlinear_arith);
        assert(forall|i: int| 0 <= i < s.len() ==> is_digit(#[trigger] s[i]));
    }
}

/// The lowercase hexadecimal digits of `n`, most significant first.
pub open spec fn hex_str(n: nat) -> Seq<u8>
    decreases n,
{
    if n < 16 {
        seq![hex_digit_of((n % 16) as nat)]
    } else {
        hex_str(n / 16).push(hex_digit_of((n % 16) as nat))
    }
}

/// The lowercase hexadecimal digit for a value below 16.
pub open spec fn hex_digit_of(d: nat) -> u8 {
    if d < 10 {
        (48 + d) as u8
    } else {
        (87 + d) as u8
    }
}

/// Formats `n` in lowercase hexadecimal.
pub fn fmt_hex(n: u64) -> (r: Vec<u8>)
    ensures
        r@ == hex_str(n as nat),
    decreases n,
{
    let d = (n % 16) as u8;
    let digit: u8 = if d < 10 {
        48 + d
    } else {
        87 + d
    };
    assert(digit == hex_digit_of((n % 16) as nat));
    if n < 16 {
        let mut r: Vec<u8> = Vec::new();
        r.push(digit);
        proof {
            assert(r@ =~= hex_str(n as nat));
        }
        r
    } else {
        let mut r = fmt_hex(n / 16);
        r.push(digit);
        r
    }
}

} // verus!
