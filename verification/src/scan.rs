//! The candidate set: the names the directory listing gave, with path
//! separators normalized, kept only where the inclusion filter accepts
//! them, and sorted in ascending lexicographic order so that every run
//! processes and reports files in the same order.

use vstd::prelude::*;
use crate::bytes::lex_lt;
use crate::bytes::spec_lex_lt;
use crate::bytes::lemma_lex_lt_asym;
use crate::bytes::lemma_lex_le_trans;
use crate::filter::matches_filter;
use crate::filter::spec_matches_filter;

verus! {

/// A backslash becomes a forward slash; every other byte stays.
pub open spec fn norm_sep(b: u8) -> u8 {
    if b == 92 {
        47u8
    } else {
        b
    }
}

/// A name with its path separators normalized to `/`.
pub open spec fn spec_normalize_sep(s: Seq<u8>) -> Seq<u8> {
    s.map_values(|b: u8| norm_sep(b))
}

/// The views of a list of byte strings.
pub open spec fn views_of(s: Seq<Vec<u8>>) -> Seq<Seq<u8>> {
    s.map_values(|v: Vec<u8>| v@)
}

/// The identities the scan keeps, in input order: each name normalized,
/// kept where the inclusion filter accepts it.
pub open spec fn spec_scan_ids(names: Seq<Seq<u8>>, index_name: Seq<u8>) -> Seq<Seq<u8>>
    decreases names.len(),
{
    if names.len() == 0 {
        Seq::empty()
    } else {
        let h = spec_normalize_sep(names.last());
        spec_scan_ids(names.drop_last(), index_name) + (if spec_matches_filter(h, index_name) {
            seq![h]
        } else {
            Seq::empty()
        })
    }
}

/// Ascending lexicographic order: no element is below an earlier one.
pub open spec fn spec_sorted(s: Seq<Seq<u8>>) -> bool {
    forall|i: int, j: int| 0 <= i <= j < s.len() ==> !spec_lex_lt(s[j], s[i])
}

/// Normalize one name's separators.
pub fn normalize_sep(name: &[u8]) -> (r: Vec<u8>)
    ensures
        r@ == spec_normalize_sep(name@),
{
    let mut out: Vec<u8> = Vec::new();
    let mut i: usize = 0;
    while i < name.len()
        invariant
            0 <= i <= name@.len(),
            out@.len() == i,
            forall|j: int| 0 <= j < i ==> out@[j] == norm_sep(name@[j]),
        decreases name@.len() - i,
    {
        let b = name[i];
        if b == 92 {
            out.push(47);
        } else {
            out.push(b);
        }
        i += 1;
    }
    proof {
        assert(out@ =~= spec_normalize_sep(name@));
    }
    out
}

/// Place one identity into a sorted run, keeping it sorted.
fn insert_in_order(out: &mut Vec<Vec<u8>>, x: Vec<u8>)
    requires
        spec_sorted(views_of(old(out)@)),
    ensures
        spec_sorted(views_of(final(out)@)),
        views_of(final(out)@).to_multiset() == views_of(old(out)@).to_multiset().insert(x@),
{
    let ghost orig = *old(out);
    let mut p: usize = 0;
    while p < out.len() && lex_lt(out[p].as_slice(), x.as_slice())
        invariant
            *out == orig,
            0 <= p <= out@.len(),
            forall|j: int| 0 <= j < p ==> spec_lex_lt(views_of(out@)[j], x@),
        decreases out@.len() - p,
    {
        p += 1;
    }
    out.insert(p, x);
    proof {
        let vn = views_of(out@);
        let vo = views_of(orig@);
        assert(out@ =~= orig@.insert(p as int, x));
        assert(vn =~= vo.insert(p as int, x@));
        assert(vn[p as int] == x@);
        assert forall|i: int, j: int| 0 <= i <= j < vn.len() implies !spec_lex_lt(vn[j], vn[i]) by {
            let pi = p as int;
            if i < pi && j < pi {
                assert(vn[i] == vo[i] && vn[j] == vo[j]);
            } else if i < pi && j == pi {
                assert(spec_lex_lt(vo[i], x@));
                lemma_lex_lt_asym(vo[i], x@);
            } else if i < pi && j > pi {
                assert(vn[i] == vo[i] && vn[j] == vo[j - 1]);
            } else if i == pi && j == pi {
                assert(!spec_lex_lt(x@, x@)) by {
                    if spec_lex_lt(x@, x@) {
                        lemma_lex_lt_asym(x@, x@);
                    }
                }
            } else if i == pi && j > pi {
                assert(vn[j] == vo[j - 1]);
                assert(!spec_lex_lt(vo[pi], x@));
                assert(!spec_lex_lt(vo[j - 1], vo[pi]));
                lemma_lex_le_trans(x@, vo[pi], vo[j - 1]);
            } else {
                assert(vn[i] == vo[i - 1] && vn[j] == vo[j - 1]);
            }
        }
        assert(vn.remove(p as int) =~= vo);
        vn.to_multiset_ensures();
        vo.to_multiset_ensures();
        assert(vo.to_multiset() == vn.to_multiset().remove(x@));
        assert(vn.contains(x@)) by {
            assert(vn[p as int] == x@);
        }
        assert(vn.to_multiset().count(x@) > 0);
        assert(vn.to_multiset() =~= vo.to_multiset().insert(x@));
    }
}

/// From the raw directory listing to the candidate set: normalize each
/// name, keep those the filter accepts, and sort them ascending.
pub fn filter_and_sort(names: &Vec<Vec<u8>>, index_name: &[u8]) -> (out: Vec<Vec<u8>>)
    ensures
        spec_sorted(views_of(out@)),
        views_of(out@).to_multiset() == spec_scan_ids(views_of(names@), index_name@).to_multiset(),
{
    let ghost vnames = views_of(names@);
    let ghost idx = index_name@;
    let mut out: Vec<Vec<u8>> = Vec::new();
    let mut i: usize = 0;
    proof {
        assert(vnames.subrange(0, 0) =~= Seq::<Seq<u8>>::empty());
        assert(views_of(out@) =~= spec_scan_ids(vnames.subrange(0, 0), idx));
    }
    while i < names.len()
        invariant
            0 <= i <= names@.len(),
            vnames == views_of(names@),
            idx == index_name@,
            spec_sorted(views_of(out@)),
            views_of(out@).to_multiset() == spec_scan_ids(vnames.subrange(0, i as int), idx).to_multiset(),
        decreases names@.len() - i,
    {
        let ghost pre = vnames.subrange(0, i as int);
        let ghost post = vnames.subrange(0, i as int + 1);
        let id = normalize_sep(names[i].as_slice());
        proof {
            assert(post.drop_last() =~= pre);
            assert(post.last() == vnames[i as int]);
        }
        if matches_filter(id.as_slice(), index_name) {
            let ghost before = views_of(out@);
            insert_in_order(&mut out, id);
            proof {
                assert(spec_scan_ids(post, idx) =~= spec_scan_ids(pre, idx).push(spec_normalize_sep(vnames[i as int])));
                spec_scan_ids(pre, idx).to_multiset_ensures();
                assert(spec_scan_ids(post, idx).to_multiset()
                    == spec_scan_ids(pre, idx).to_multiset().insert(spec_normalize_sep(vnames[i as int])));
            }
        } else {
            proof {
                assert(spec_scan_ids(post, idx) =~= spec_scan_ids(pre, idx));
            }
        }
        i += 1;
    }
    proof {
        assert(vnames.subrange(0, names@.len() as int) =~= vnames);
    }
    out
}

} // verus!
