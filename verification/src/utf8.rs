//! A verified UTF-8 well-formedness check over bytes.
//!
//! The predicate follows the shortest-form byte-sequence table of UTF-8:
//! one-byte sequences below 0x80, two-byte sequences starting 0xC2..=0xDF,
//! three-byte sequences with the 0xE0/0xED range restrictions, four-byte
//! sequences with the 0xF0/0xF4 range restrictions.

use vstd::prelude::*;

verus! {

/// A UTF-8 continuation byte.
pub open spec fn is_cont(b: u8) -> bool {
    0x80 <= b && b <= 0xBF
}

/// The bytes of `s` from index `i` on form well-formed UTF-8.
pub open spec fn utf8_ok_from(s: Seq<u8>, i: int) -> bool
    decreases s.len() - i,
{
    if i < 0 {
        false
    } else if i >= s.len() {
        true
    } else {
        let b = s[i];
        if b < 0x80 {
            utf8_ok_from(s, i + 1)
        } else if 0xC2 <= b && b <= 0xDF {
            i + 1 < s.len() && is_cont(s[i + 1]) && utf8_ok_from(s, i + 2)
        } else if b == 0xE0 {
            i + 2 < s.len() && 0xA0 <= s[i + 1] && s[i + 1] <= 0xBF && is_cont(s[i + 2])
                && utf8_ok_from(s, i + 3)
        } else if b == 0xED {
            i + 2 < s.len() && 0x80 <= s[i + 1] && s[i + 1] <= 0x9F && is_cont(s[i + 2])
                && utf8_ok_from(s, i + 3)
        } else if (0xE1 <= b && b <= 0xEC) || b == 0xEE || b == 0xEF {
            i + 2 < s.len() && is_cont(s[i + 1]) && is_cont(s[i + 2]) && utf8_ok_from(s, i + 3)
        } else if b == 0xF0 {
            i + 3 < s.len() && 0x90 <= s[i + 1] && s[i + 1] <= 0xBF && is_cont(s[i + 2])
                && is_cont(s[i + 3]) && utf8_ok_from(s, i + 4)
        } else if 0xF1 <= b && b <= 0xF3 {
            i + 3 < s.len() && is_cont(s[i + 1]) && is_cont(s[i + 2]) && is_cont(s[i + 3])
                && utf8_ok_from(s, i + 4)
        } else if b == 0xF4 {
            i + 3 < s.len() && 0x80 <= s[i + 1] && s[i + 1] <= 0x8F && is_cont(s[i + 2])
                && is_cont(s[i + 3]) && utf8_ok_from(s, i + 4)
        } else {
            false
        }
    }
}

/// ASCII bytes are well-formed UTF-8.
pub proof fn lemma_ascii_utf8(s: Seq<u8>, i: int)
    requires
        0 <= i,
        forall|j: int| 0 <= j < s.len() ==> (#[trigger] s[j]) < 128,
    ensures
        utf8_ok_from(s, i),
    decreases s.len() - i,
{
    if i < s.len() {
        lemma_ascii_utf8(s, i + 1);
    }
}

/// `s` is well-formed UTF-8.
pub open spec fn is_valid_utf8(s: Seq<u8>) -> bool {
    utf8_ok_from(s, 0)
}

/// Checks whether `s` is well-formed UTF-8.
pub fn validate_utf8(s: &[u8]) -> (r: bool)
    ensures
        r == is_valid_utf8(s@),
{
    let mut i: usize = 0;
    while i < s.len()
        invariant
            i <= s.len(),
            is_valid_utf8(s@) == utf8_ok_from(s@, i as int),
        decreases s.len() - i,
    {
        let b = s[i];
        if b < 0x80 {
            i = i + 1;
        } else if 0xC2 <= b && b <= 0xDF {
            if !(i + 1 < s.len() && 0x80 <= s[i + 1] && s[i + 1] <= 0xBF) {
                return false;
            }
            i = i + 2;
        } else if b == 0xE0 {
            if !(s.len() - i > 2 && 0xA0 <= s[i + 1] && s[i + 1] <= 0xBF && 0x80 <= s[i + 2] && s[i
                + 2] <= 0xBF) {
                return false;
            }
            i = i + 3;
        } else if b == 0xED {
            if !(s.len() - i > 2 && 0x80 <= s[i + 1] && s[i + 1] <= 0x9F && 0x80 <= s[i + 2] && s[i
                + 2] <= 0xBF) {
                return false;
            }
            i = i + 3;
        } else if (0xE1 <= b && b <= 0xEC) || b == 0xEE || b == 0xEF {
            if !(s.len() - i > 2 && 0x80 <= s[i + 1] && s[i + 1] <= 0xBF && 0x80 <= s[i + 2] && s[i
                + 2] <= 0xBF) {
                return false;
            }
            i = i + 3;
        } else if b == 0xF0 {
            if !(s.len() - i > 3 && 0x90 <= s[i + 1] && s[i + 1] <= 0xBF && 0x80 <= s[i + 2] && s[i
                + 2] <= 0xBF && 0x80 <= s[i + 3] && s[i + 3] <= 0xBF) {
                return false;
            }
            i = i + 4;
        } else if 0xF1 <= b && b <= 0xF3 {
            if !(s.len() - i > 3 && 0x80 <= s[i + 1] && s[i + 1] <= 0xBF && 0x80 <= s[i + 2] && s[i
                + 2] <= 0xBF && 0x80 <= s[i + 3] && s[i + 3] <= 0xBF) {
                return false;
            }
            i = i + 4;
        } else if b == 0xF4 {
            if !(s.len() - i > 3 && 0x80 <= s[i + 1] && s[i + 1] <= 0x8F && 0x80 <= s[i + 2] && s[i
                + 2] <= 0xBF && 0x80 <= s[i + 3] && s[i + 3] <= 0xBF) {
                return false;
            }
            i = i + 4;
        } else {
            return false;
        }
    }
    true
}

} // verus!
