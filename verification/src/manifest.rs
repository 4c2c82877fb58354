//! The manifest loader: a two-column, whitespace-separated text, one
//! entry per line, column one the expected fingerprint and column two a
//! file path written with `/`, `\` or `*` as separator. Each line either
//! yields one entry of the manifest mapping — keyed by the path relative
//! to the root, or, for a path outside the root that ends with the index
//! suffix, by root + path — or is dropped silently. A later line for the
//! same identity wins.

use vstd::prelude::*;
use vstd::slice::slice_subrange;
use vstd::slice::slice_to_vec;
use crate::bytes::bytes_eq;
use crate::bytes::clone_bytes;
use crate::filter::matches_filter;
use crate::filter::spec_matches_filter;
use crate::store::FpMap;

verus! {

/// The byte is ASCII whitespace.
pub open spec fn is_ws(b: u8) -> bool {
    b == 32 || b == 9 || b == 10 || b == 11 || b == 12 || b == 13
}

/// Index of the first byte at or after `i` that is not whitespace.
pub open spec fn skip_ws(s: Seq<u8>, i: int) -> int
    decreases s.len() - i,
{
    if i < 0 || i >= s.len() {
        i
    } else if !is_ws(s[i]) {
        i
    } else {
        skip_ws(s, i + 1)
    }
}

/// Index of the first byte at or after `i` that is whitespace.
pub open spec fn token_end(s: Seq<u8>, i: int) -> int
    decreases s.len() - i,
{
    if i < 0 || i >= s.len() {
        i
    } else if is_ws(s[i]) {
        i
    } else {
        token_end(s, i + 1)
    }
}

/// Index of the first line feed at or after `i`.
pub open spec fn line_end(s: Seq<u8>, i: int) -> int
    decreases s.len() - i,
{
    if i < 0 || i >= s.len() {
        i
    } else if s[i] == 10 {
        i
    } else {
        line_end(s, i + 1)
    }
}

/// The line's exactly-two whitespace-separated tokens, if it has
/// exactly two.
pub open spec fn spec_two_tokens(s: Seq<u8>) -> Option<(Seq<u8>, Seq<u8>)> {
    let a = skip_ws(s, 0);
    let b = token_end(s, a);
    let c = skip_ws(s, b);
    let d = token_end(s, c);
    let e = skip_ws(s, d);
    if b > a && d > c && e == s.len() {
        Some((s.subrange(a, b), s.subrange(c, d)))
    } else {
        None
    }
}

/// An upper-case ASCII letter becomes lower case; every other byte stays.
pub open spec fn to_lower(b: u8) -> u8 {
    if 65 <= b <= 90 {
        (b + 32) as u8
    } else {
        b
    }
}

/// A fingerprint in its canonical form: ASCII lower case.
pub open spec fn spec_lowercase(s: Seq<u8>) -> Seq<u8> {
    s.map_values(|b: u8| to_lower(b))
}

/// A `*` or `\` becomes `/`; every other byte stays.
pub open spec fn norm_manifest_byte(b: u8) -> u8 {
    if b == 42 || b == 92 {
        47u8
    } else {
        b
    }
}

/// A manifest path with its separators normalized to `/`.
pub open spec fn spec_normalize_manifest(s: Seq<u8>) -> Seq<u8> {
    s.map_values(|b: u8| norm_manifest_byte(b))
}

/// The path relative to the root, where the path lies under the root.
pub open spec fn spec_strip_root(p: Seq<u8>, root: Seq<u8>) -> Option<Seq<u8>> {
    if p.len() > root.len() && p.subrange(0, root.len() as int) == root && p[root.len() as int]
        == 47 {
        Some(p.skip(root.len() as int + 1))
    } else {
        None
    }
}

/// The path ends with the given suffix.
pub open spec fn spec_ends_with(p: Seq<u8>, suffix: Seq<u8>) -> bool {
    p.len() >= suffix.len() && p.skip(p.len() - suffix.len()) == suffix
}

/// The entry one manifest line yields, if any: the identity it is kept
/// under and the expected fingerprint in canonical lower case.
pub open spec fn spec_line_entry(
    line: Seq<u8>,
    root: Seq<u8>,
    index_name: Seq<u8>,
    index_suffix: Seq<u8>,
) -> Option<(Seq<u8>, Seq<u8>)> {
    match spec_two_tokens(line) {
        None => None,
        Some(t) => {
            let fp = spec_lowercase(t.0);
            let path = spec_normalize_manifest(t.1);
            match spec_strip_root(path, root) {
                Some(rel) => if spec_matches_filter(rel, index_name) {
                    Some((rel, fp))
                } else {
                    None
                },
                None => if spec_ends_with(path, index_suffix) {
                    Some((root + path, fp))
                } else {
                    None
                },
            }
        },
    }
}

/// One line folded into the mapping built so far.
pub open spec fn spec_apply_line(
    acc: Map<Seq<u8>, Seq<u8>>,
    line: Seq<u8>,
    root: Seq<u8>,
    index_name: Seq<u8>,
    index_suffix: Seq<u8>,
) -> Map<Seq<u8>, Seq<u8>> {
    match spec_line_entry(line, root, index_name, index_suffix) {
        Some(kv) => acc.insert(kv.0, kv.1),
        None => acc,
    }
}

/// The mapping the manifest text yields from position `pos` on, starting
/// from the mapping built so far: line by line, a later entry for the
/// same identity winning.
pub open spec fn spec_manifest_from(
    s: Seq<u8>,
    pos: int,
    acc: Map<Seq<u8>, Seq<u8>>,
    root: Seq<u8>,
    index_name: Seq<u8>,
    index_suffix: Seq<u8>,
) -> Map<Seq<u8>, Seq<u8>>
    decreases s.len() - pos,
{
    if pos < 0 || pos >= s.len() {
        acc
    } else {
        let e = line_end(s, pos);
        let acc2 = spec_apply_line(acc, s.subrange(pos, e), root, index_name, index_suffix);
        let next = if e < s.len() {
            e + 1
        } else {
            e
        };
        if pos < next <= s.len() {
            spec_manifest_from(s, next, acc2, root, index_name, index_suffix)
        } else {
            acc2
        }
    }
}

/// The mapping from identity to expected fingerprint that the whole
/// manifest text yields.
pub open spec fn spec_manifest(
    s: Seq<u8>,
    root: Seq<u8>,
    index_name: Seq<u8>,
    index_suffix: Seq<u8>,
) -> Map<Seq<u8>, Seq<u8>> {
    spec_manifest_from(s, 0, Map::empty(), root, index_name, index_suffix)
}

/// Find the first non-whitespace byte at or after `from`.
fn scan_ws(s: &[u8], from: usize) -> (e: usize)
    requires
        from <= s@.len(),
    ensures
        e == skip_ws(s@, from as int),
        from <= e <= s@.len(),
{
    let mut j = from;
    while j < s.len() && (s[j] == 32 || s[j] == 9 || s[j] == 10 || s[j] == 11 || s[j] == 12
        || s[j] == 13)
        invariant
            from <= j <= s@.len(),
            skip_ws(s@, from as int) == skip_ws(s@, j as int),
        decreases s@.len() - j,
    {
        j += 1;
    }
    j
}

/// Find the end of the token starting at `from`.
fn scan_token(s: &[u8], from: usize) -> (e: usize)
    requires
        from <= s@.len(),
    ensures
        e == token_end(s@, from as int),
        from <= e <= s@.len(),
{
    let mut j = from;
    while j < s.len() && !(s[j] == 32 || s[j] == 9 || s[j] == 10 || s[j] == 11 || s[j] == 12
        || s[j] == 13)
        invariant
            from <= j <= s@.len(),
            token_end(s@, from as int) == token_end(s@, j as int),
        decreases s@.len() - j,
    {
        j += 1;
    }
    j
}

/// Split a line into its exactly-two whitespace-separated tokens.
fn split_two_tokens(line: &[u8]) -> (r: Option<(Vec<u8>, Vec<u8>)>)
    ensures
        match r {
            Some(t) => spec_two_tokens(line@) == Some((t.0@, t.1@)),
            None => spec_two_tokens(line@) is None,
        },
{
    let a = scan_ws(line, 0);
    let b = scan_token(line, a);
    if b == a {
        return None;
    }
    let c = scan_ws(line, b);
    let d = scan_token(line, c);
    if d == c {
        return None;
    }
    let e = scan_ws(line, d);
    if e != line.len() {
        return None;
    }
    let first = slice_to_vec(slice_subrange(line, a, b));
    let second = slice_to_vec(slice_subrange(line, c, d));
    Some((first, second))
}

/// Lower one token's ASCII letters.
fn lowercase(s: &[u8]) -> (r: Vec<u8>)
    ensures
        r@ == spec_lowercase(s@),
{
    let mut out: Vec<u8> = Vec::new();
    let mut i: usize = 0;
    while i < s.len()
        invariant
            0 <= i <= s@.len(),
            out@.len() == i,
            forall|j: int| 0 <= j < i ==> out@[j] == to_lower(s@[j]),
        decreases s@.len() - i,
    {
        let b = s[i];
        if 65 <= b && b <= 90 {
            out.push(b + 32);
        } else {
            out.push(b);
        }
        i += 1;
    }
    proof {
        assert(out@ =~= spec_lowercase(s@));
    }
    out
}

/// Normalize one manifest path's separators.
fn normalize_manifest(s: &[u8]) -> (r: Vec<u8>)
    ensures
        r@ == spec_normalize_manifest(s@),
{
    let mut out: Vec<u8> = Vec::new();
    let mut i: usize = 0;
    while i < s.len()
        invariant
            0 <= i <= s@.len(),
            out@.len() == i,
            forall|j: int| 0 <= j < i ==> out@[j] == norm_manifest_byte(s@[j]),
        decreases s@.len() - i,
    {
        let b = s[i];
        if b == 42 || b == 92 {
            out.push(47);
        } else {
            out.push(b);
        }
        i += 1;
    }
    proof {
        assert(out@ =~= spec_normalize_manifest(s@));
    }
    out
}

/// Join two byte strings.
fn concat_bytes(a: &[u8], b: &[u8]) -> (r: Vec<u8>)
    ensures
        r@ == a@ + b@,
{
    let mut out = clone_bytes(a);
    let mut i: usize = 0;
    while i < b.len()
        invariant
            0 <= i <= b@.len(),
            out@ =~= a@ + b@.subrange(0, i as int),
        decreases b@.len() - i,
    {
        out.push(b[i]);
        proof {
            assert(out@ =~= a@ + b@.subrange(0, i as int + 1));
        }
        i += 1;
    }
    proof {
        assert(out@ =~= a@ + b@);
    }
    out
}

/// Fold one manifest line into the mapping.
fn apply_line(
    m: &mut FpMap,
    line: &[u8],
    root: &[u8],
    index_name: &[u8],
    index_suffix: &[u8],
)
    requires
        old(m).wf(),
    ensures
        final(m).wf(),
        final(m)@ == spec_apply_line(old(m)@, line@, root@, index_name@, index_suffix@),
{
    let tokens = match split_two_tokens(line) {
        Some(t) => t,
        None => {
            return ;
        },
    };
    let fp = lowercase(tokens.0.as_slice());
    let path = normalize_manifest(tokens.1.as_slice());
    let plen = path.len();
    let rlen = root.len();
    if plen > rlen && bytes_eq(slice_subrange(path.as_slice(), 0, rlen), root) && *vstd::slice::slice_index_get(path.as_slice(), rlen) == 47 {
        let rel = slice_to_vec(slice_subrange(path.as_slice(), rlen + 1, plen));
        proof {
            assert(rel@ =~= path@.skip(rlen as int + 1));
            assert(spec_strip_root(path@, root@) == Some(rel@));
        }
        if matches_filter(rel.as_slice(), index_name) {
            m.insert(rel, fp);
        }
    } else {
        proof {
            assert(spec_strip_root(path@, root@) is None);
        }
        let slen = index_suffix.len();
        if plen >= slen && bytes_eq(slice_subrange(path.as_slice(), plen - slen, plen), index_suffix) {
            proof {
                assert(path@.subrange(plen - slen, plen as int) =~= path@.skip(plen - slen));
                assert(spec_ends_with(path@, index_suffix@));
            }
            let key = concat_bytes(root, path.as_slice());
            m.insert(key, fp);
        } else {
            proof {
                if plen >= slen {
                    assert(path@.subrange(plen - slen, plen as int) =~= path@.skip(plen - slen));
                }
                assert(!spec_ends_with(path@, index_suffix@));
            }
        }
    }
}

/// Parse the whole manifest text into the mapping from identity to
/// expected fingerprint.
pub fn parse_manifest(
    text: &[u8],
    root: &[u8],
    index_name: &[u8],
    index_suffix: &[u8],
) -> (m: FpMap)
    ensures
        m.wf(),
        m@ == spec_manifest(text@, root@, index_name@, index_suffix@),
{
    let mut m = FpMap::new();
    let mut pos: usize = 0;
    while pos < text.len()
        invariant
            0 <= pos <= text@.len(),
            m.wf(),
            spec_manifest(text@, root@, index_name@, index_suffix@) == spec_manifest_from(
                text@,
                pos as int,
                m@,
                root@,
                index_name@,
                index_suffix@,
            ),
        decreases text@.len() - pos,
    {
        let mut e = pos;
        while e < text.len() && text[e] != 10
            invariant
                pos <= e <= text@.len(),
                line_end(text@, pos as int) == line_end(text@, e as int),
            decreases text@.len() - e,
        {
            e += 1;
        }
        let line = slice_subrange(text, pos, e);
        apply_line(&mut m, line, root, index_name, index_suffix);
        pos = if e < text.len() {
            e + 1
        } else {
            e
        };
    }
    m
}

} // verus!
