//! The inclusion filter over identities relative to the root: archive
//! files named with the numeric-range convention, with an optional
//! "lost" marker (`fb2-<digits>-<digits>.zip` or
//! `fb2-<digits>-<digits>_lost.zip`), and one specifically named index
//! file, supplied by the caller as configuration.

use vstd::prelude::*;
use crate::bytes::bytes_eq;

verus! {

/// The byte is an ASCII decimal digit.
pub open spec fn is_digit(b: u8) -> bool {
    48 <= b <= 57
}

/// Index of the first byte at or after `i` that is not a digit.
pub open spec fn digits_end(s: Seq<u8>, i: int) -> int
    decreases s.len() - i,
{
    if i < 0 || i >= s.len() {
        i
    } else if !is_digit(s[i]) {
        i
    } else {
        digits_end(s, i + 1)
    }
}

/// What `digits_end` marks: a run of digits and nothing less.
pub proof fn lemma_digits_end(s: Seq<u8>, i: int)
    requires
        0 <= i <= s.len(),
    ensures
        i <= digits_end(s, i) <= s.len(),
        forall|j: int| i <= j < digits_end(s, i) ==> is_digit(s[j]),
        digits_end(s, i) < s.len() ==> !is_digit(s[digits_end(s, i)]),
    decreases s.len() - i,
{
    if i < s.len() && is_digit(s[i]) {
        lemma_digits_end(s, i + 1);
    }
}

/// The `.zip` ending of an archive name.
pub open spec fn zip_suffix() -> Seq<u8> {
    seq![46u8, 122u8, 105u8, 112u8]
}

/// The `_lost.zip` ending of an archive name marked lost.
pub open spec fn lost_zip_suffix() -> Seq<u8> {
    seq![95u8, 108u8, 111u8, 115u8, 116u8, 46u8, 122u8, 105u8, 112u8]
}

/// The name follows the numeric-range archive convention:
/// `fb2-`, a run of digits, `-`, a run of digits, then `.zip` or
/// `_lost.zip`.
pub open spec fn spec_is_archive_name(s: Seq<u8>) -> bool {
    let b = digits_end(s, 4);
    let d = digits_end(s, b + 1);
    &&& s.len() > 4
    &&& s[0] == 102u8  // 'f'
    &&& s[1] == 98u8  // 'b'
    &&& s[2] == 50u8  // '2'
    &&& s[3] == 45u8  // '-'
    &&& b > 4
    &&& b < s.len()
    &&& s[b] == 45u8  // '-'
    &&& d > b + 1
    &&& (s.skip(d) == zip_suffix() || s.skip(d) == lost_zip_suffix())
}

/// The identity takes part in verification: it is the index file's
/// configured name, or an archive name of the numeric-range convention.
pub open spec fn spec_matches_filter(s: Seq<u8>, index_name: Seq<u8>) -> bool {
    s == index_name || spec_is_archive_name(s)
}

/// Find the end of the digit run starting at `from`.
fn scan_digits(s: &[u8], from: usize) -> (e: usize)
    requires
        from <= s@.len(),
    ensures
        e == digits_end(s@, from as int),
        from <= e <= s@.len(),
{
    let mut j = from;
    while j < s.len() && 48 <= s[j] && s[j] <= 57
        invariant
            from <= j <= s@.len(),
            digits_end(s@, from as int) == digits_end(s@, j as int),
        decreases s@.len() - j,
    {
        j += 1;
    }
    proof {
        lemma_digits_end(s@, from as int);
    }
    j
}

/// Decide the archive-name convention.
fn is_archive_name(s: &[u8]) -> (r: bool)
    ensures
        r == spec_is_archive_name(s@),
{
    if s.len() <= 4 {
        return false;
    }
    if !(s[0] == 102 && s[1] == 98 && s[2] == 50 && s[3] == 45) {
        return false;
    }
    let b = scan_digits(s, 4);
    if b == 4 {
        return false;
    }
    if b >= s.len() || s[b] != 45 {
        return false;
    }
    let d = scan_digits(s, b + 1);
    if d == b + 1 {
        return false;
    }
    let rest = s.len() - d;
    if rest == 4 {
        let ok = s[d] == 46 && s[d + 1] == 122 && s[d + 2] == 105 && s[d + 3] == 112;
        proof {
            if ok {
                assert(s@.skip(d as int) =~= zip_suffix());
            } else {
                assert(s@.skip(d as int) != zip_suffix());
                assert(s@.skip(d as int).len() != lost_zip_suffix().len());
            }
        }
        ok
    } else if rest == 9 {
        let ok = s[d] == 95 && s[d + 1] == 108 && s[d + 2] == 111 && s[d + 3] == 115 && s[d + 4]
            == 116 && s[d + 5] == 46 && s[d + 6] == 122 && s[d + 7] == 105 && s[d + 8] == 112;
        proof {
            if ok {
                assert(s@.skip(d as int) =~= lost_zip_suffix());
            } else {
                assert(s@.skip(d as int) != lost_zip_suffix());
                assert(s@.skip(d as int).len() != zip_suffix().len());
            }
        }
        ok
    } else {
        proof {
            assert(s@.skip(d as int).len() != zip_suffix().len());
            assert(s@.skip(d as int).len() != lost_zip_suffix().len());
        }
        false
    }
}

/// Decide the inclusion filter.
pub fn matches_filter(name: &[u8], index_name: &[u8]) -> (r: bool)
    ensures
        r == spec_matches_filter(name@, index_name@),
{
    if bytes_eq(name, index_name) {
        return true;
    }
    is_archive_name(name)
}

} // verus!
