//! The reconciler: for each candidate identity, in order, resolve a
//! computed fingerprint (from the cache, or freshly hashed), compare it
//! to the manifest's expectation, and keep the cache trustworthy: a
//! fresh fingerprint is recorded, a mismatched entry is removed so the
//! next run re-hashes instead of re-trusting a wrong value.
//!
//! `spec_run` is the mathematical model of a whole run over the cache
//! mapping, given the per-identity digests of what is on disk; the
//! public proof functions state the run's laws over it.

use vstd::prelude::*;
use vstd::map::*;
use crate::bytes::bytes_eq;
use crate::bytes::clone_bytes;
use crate::store::FpMap;

verus! {

/// What one candidate's verification concluded.
pub enum Status {
    Verified,
    Mismatch { expected: Vec<u8>, actual: Vec<u8> },
    AbsentInManifest,
}

/// The conclusion, over byte-string views.
pub enum StatusSpec {
    Verified,
    Mismatch { expected: Seq<u8>, actual: Seq<u8> },
    AbsentInManifest,
}

impl View for Status {
    type V = StatusSpec;

    open spec fn view(&self) -> StatusSpec {
        match self {
            Status::Verified => StatusSpec::Verified,
            Status::Mismatch { expected, actual } => StatusSpec::Mismatch {
                expected: expected@,
                actual: actual@,
            },
            Status::AbsentInManifest => StatusSpec::AbsentInManifest,
        }
    }
}

/// What one candidate asks of the caller: nothing, judging a cached
/// fingerprint, or hashing the file first.
pub enum CandidatePlan {
    AbsentInManifest,
    Cached { fingerprint: Vec<u8> },
    NeedHash,
}

/// One candidate's effect: its status, the cache mapping after it, and
/// whether it required a fresh hash.
pub struct StepSpec {
    pub status: StatusSpec,
    pub cache: Map<Seq<u8>, Seq<u8>>,
    pub hashed: bool,
}

/// A whole run's effect: the statuses in candidate order, the final
/// cache mapping, and the identities that were freshly hashed.
pub struct RunSpec {
    pub statuses: Seq<StatusSpec>,
    pub cache: Map<Seq<u8>, Seq<u8>>,
    pub hashed: Set<Seq<u8>>,
}

/// One candidate of the run: absent from the manifest it is reported and
/// leaves no trace; otherwise its fingerprint is the cached one if the
/// cache holds one, else the digest of what is on disk (then recorded);
/// equality with the expectation is verified, anything else reports both
/// values and removes the entry.
pub open spec fn spec_step(
    manifest: Map<Seq<u8>, Seq<u8>>,
    cache: Map<Seq<u8>, Seq<u8>>,
    digests: Map<Seq<u8>, Seq<u8>>,
    id: Seq<u8>,
) -> StepSpec {
    if !manifest.dom().contains(id) {
        StepSpec { status: StatusSpec::AbsentInManifest, cache, hashed: false }
    } else {
        let hashed = !cache.dom().contains(id);
        let computed = if hashed {
            digests[id]
        } else {
            cache[id]
        };
        let cache1 = if hashed {
            cache.insert(id, computed)
        } else {
            cache
        };
        if computed == manifest[id] {
            StepSpec { status: StatusSpec::Verified, cache: cache1, hashed }
        } else {
            StepSpec {
                status: StatusSpec::Mismatch { expected: manifest[id], actual: computed },
                cache: cache1.remove(id),
                hashed,
            }
        }
    }
}

/// The whole run, candidate by candidate in the given order.
pub open spec fn spec_run(
    manifest: Map<Seq<u8>, Seq<u8>>,
    cache: Map<Seq<u8>, Seq<u8>>,
    digests: Map<Seq<u8>, Seq<u8>>,
    ids: Seq<Seq<u8>>,
) -> RunSpec
    decreases ids.len(),
{
    if ids.len() == 0 {
        RunSpec { statuses: Seq::empty(), cache, hashed: Set::empty() }
    } else {
        let st = spec_step(manifest, cache, digests, ids[0]);
        let rest = spec_run(manifest, st.cache, digests, ids.skip(1));
        RunSpec {
            statuses: seq![st.status] + rest.statuses,
            cache: rest.cache,
            hashed: if st.hashed {
                rest.hashed.insert(ids[0])
            } else {
                rest.hashed
            },
        }
    }
}

/// No identity occurs twice among the candidates.
pub open spec fn distinct_ids(ids: Seq<Seq<u8>>) -> bool {
    forall|p: int, q: int| 0 <= p < q < ids.len() ==> ids[p] != ids[q]
}

/// Every cache entry for a candidate holds that candidate's digest.
pub open spec fn cache_truthful(
    cache: Map<Seq<u8>, Seq<u8>>,
    digests: Map<Seq<u8>, Seq<u8>>,
    ids: Seq<Seq<u8>>,
) -> bool {
    forall|k: Seq<u8>|
        ids.contains(k) && cache.dom().contains(k) ==> #[trigger] cache[k] == digests[k]
}

/// The status a candidate earns from the manifest and the disk alone.
pub open spec fn expected_status(
    manifest: Map<Seq<u8>, Seq<u8>>,
    digests: Map<Seq<u8>, Seq<u8>>,
    k: Seq<u8>,
) -> StatusSpec {
    if !manifest.dom().contains(k) {
        StatusSpec::AbsentInManifest
    } else if digests[k] == manifest[k] {
        StatusSpec::Verified
    } else {
        StatusSpec::Mismatch { expected: manifest[k], actual: digests[k] }
    }
}

/// Decide a candidate's plan: report it absent, judge the cached
/// fingerprint without re-hashing, or ask for a fresh hash.
pub fn plan_candidate(manifest: &FpMap, cache: &FpMap, id: &[u8]) -> (p: CandidatePlan)
    requires
        manifest.wf(),
        cache.wf(),
    ensures
        match p {
            CandidatePlan::AbsentInManifest => !manifest@.dom().contains(id@),
            CandidatePlan::Cached { fingerprint } => manifest@.dom().contains(id@)
                && cache@.dom().contains(id@) && fingerprint@ == cache@[id@],
            CandidatePlan::NeedHash => manifest@.dom().contains(id@) && !cache@.dom().contains(
                id@,
            ),
        },
{
    if !manifest.contains_key(id) {
        CandidatePlan::AbsentInManifest
    } else {
        match cache.get(id) {
            Some(v) => CandidatePlan::Cached { fingerprint: v },
            None => CandidatePlan::NeedHash,
        }
    }
}

/// Record a freshly computed fingerprint in the cache; the caller
/// persists the cache before judging, so an interrupted run keeps it.
pub fn record_fingerprint(cache: &mut FpMap, id: &[u8], fp: &[u8])
    requires
        old(cache).wf(),
    ensures
        final(cache).wf(),
        final(cache)@ == old(cache)@.insert(id@, fp@),
{
    cache.insert(clone_bytes(id), clone_bytes(fp));
}

/// Judge a candidate's computed fingerprint against the manifest:
/// equality is verified and leaves the cache as it is; anything else reports
/// both values and removes the candidate's cache entry, so the next run
/// re-hashes it.
pub fn judge_candidate(manifest: &FpMap, cache: &mut FpMap, id: &[u8], computed: &[u8]) -> (s:
    Status)
    requires
        manifest.wf(),
        old(cache).wf(),
        manifest@.dom().contains(id@),
    ensures
        final(cache).wf(),
        computed@ == manifest@[id@] ==> s is Verified && final(cache)@ == old(cache)@,
        computed@ != manifest@[id@] ==> (s matches Status::Mismatch { expected, actual }
            && expected@ == manifest@[id@] && actual@ == computed@) && final(cache)@ == old(
            cache,
        )@.remove(id@),
{
    let expected = match manifest.get(id) {
        Some(v) => v,
        None => {
            return vstd::pervasive::unreached();
        },
    };
    if bytes_eq(expected.as_slice(), computed) {
        Status::Verified
    } else {
        cache.remove(id);
        Status::Mismatch { expected, actual: clone_bytes(computed) }
    }
}

/// After the run, the manifest identities with no entry in the cache's
/// final state: the files the manifest expects but the scan never
/// produced.
pub fn find_missing(manifest: &FpMap, cache: &FpMap) -> (out: Vec<Vec<u8>>)
    requires
        manifest.wf(),
        cache.wf(),
    ensures
        forall|j: int|
            0 <= j < out@.len() ==> manifest@.dom().contains(#[trigger] out@[j]@)
                && !cache@.dom().contains(out@[j]@),
        forall|k: Seq<u8>|
            manifest@.dom().contains(k) && !cache@.dom().contains(k) ==> exists|j: int|
                0 <= j < out@.len() && #[trigger] out@[j]@ == k,
        forall|p: int, q: int| 0 <= p < q < out@.len() ==> out@[p]@ != out@[q]@,
{
    let pairs = manifest.to_pairs();
    let mut out: Vec<Vec<u8>> = Vec::new();
    let n = pairs.len();
    let mut i: usize = 0;
    while i < n
        invariant
            0 <= i <= n,
            n == pairs@.len(),
            manifest.wf(),
            cache.wf(),
            forall|j: int|
                0 <= j < pairs@.len() ==> manifest@.dom().contains(#[trigger] pairs@[j].0@)
                    && manifest@[pairs@[j].0@] == pairs@[j].1@,
            forall|p: int, q: int| 0 <= p < q < pairs@.len() ==> pairs@[p].0@ != pairs@[q].0@,
            forall|j: int|
                0 <= j < out@.len() ==> manifest@.dom().contains(#[trigger] out@[j]@)
                    && !cache@.dom().contains(out@[j]@),
            forall|j: int|
                0 <= j < i && !cache@.dom().contains(#[trigger] pairs@[j].0@) ==> exists|w: int|
                    0 <= w < out@.len() && #[trigger] out@[w]@ == pairs@[j].0@,
            forall|w: int|
                0 <= w < out@.len() ==> exists|j: int|
                    0 <= j < i && pairs@[j].0@ == #[trigger] out@[w]@,
            forall|p: int, q: int| 0 <= p < q < out@.len() ==> out@[p]@ != out@[q]@,
        decreases n - i,
    {
        if !cache.contains_key(pairs[i].0.as_slice()) {
            let ghost before = out@;
            out.push(clone_bytes(pairs[i].0.as_slice()));
            proof {
                assert(out@[before.len() as int]@ == pairs@[i as int].0@);
                assert(forall|w: int| 0 <= w < before.len() ==> out@[w] == before[w]);
                assert forall|j: int|
                    0 <= j < i + 1 && !cache@.dom().contains(#[trigger] pairs@[j].0@)
                    implies exists|w: int|
                        0 <= w < out@.len() && #[trigger] out@[w]@ == pairs@[j].0@ by {
                    if j < i {
                        let w = choose|w: int|
                            0 <= w < before.len() && #[trigger] before[w]@ == pairs@[j].0@;
                        assert(out@[w]@ == pairs@[j].0@);
                    } else {
                        assert(out@[before.len() as int]@ == pairs@[j].0@);
                    }
                }
                assert forall|p: int, q: int| 0 <= p < q < out@.len() implies out@[p]@
                    != out@[q]@ by {
                    if q == out@.len() - 1 {
                        let j = choose|j: int|
                            0 <= j < i && pairs@[j].0@ == #[trigger] out@[p]@;
                        assert(pairs@[j].0@ != pairs@[i as int].0@);
                    }
                }
            }
        }
        i += 1;
    }
    proof {
        assert forall|k: Seq<u8>| manifest@.dom().contains(k) && !cache@.dom().contains(k)
            implies exists|j: int| 0 <= j < out@.len() && #[trigger] out@[j]@ == k by {
            let j = choose|j: int| 0 <= j < pairs@.len() && #[trigger] pairs@[j].0@ == k;
            assert(!cache@.dom().contains(pairs@[j].0@));
        }
    }
    out
}

/// Distinctness carries to the candidates after the first.
proof fn lemma_distinct_rest(ids: Seq<Seq<u8>>)
    requires
        distinct_ids(ids),
        ids.len() > 0,
    ensures
        distinct_ids(ids.skip(1)),
        !ids.skip(1).contains(ids[0]),
{
    let rest = ids.skip(1);
    assert forall|p: int, q: int| 0 <= p < q < rest.len() implies rest[p] != rest[q] by {
        assert(rest[p] == ids[p + 1]);
        assert(rest[q] == ids[q + 1]);
    }
    if rest.contains(ids[0]) {
        let w = choose|w: int| 0 <= w < rest.len() && rest[w] == ids[0];
        assert(ids[w + 1] == ids[0]);
    }
}

/// A run reports one status per candidate, in order.
pub proof fn lemma_run_length(
    manifest: Map<Seq<u8>, Seq<u8>>,
    cache: Map<Seq<u8>, Seq<u8>>,
    digests: Map<Seq<u8>, Seq<u8>>,
    ids: Seq<Seq<u8>>,
)
    ensures
        spec_run(manifest, cache, digests, ids).statuses.len() == ids.len(),
    decreases ids.len(),
{
    if ids.len() > 0 {
        let st = spec_step(manifest, cache, digests, ids[0]);
        lemma_run_length(manifest, st.cache, digests, ids.skip(1));
    }
}

/// A run never touches the cache entry of an identity that is not a
/// candidate. With the report of identities the manifest expects but the
/// cache's final state lacks, this is why a manifest entry for a file
/// the scan never produced — absent from disk — is reported missing
/// whenever it did not enter the run with a cache entry.
pub proof fn lemma_run_frame(
    manifest: Map<Seq<u8>, Seq<u8>>,
    cache: Map<Seq<u8>, Seq<u8>>,
    digests: Map<Seq<u8>, Seq<u8>>,
    ids: Seq<Seq<u8>>,
    k: Seq<u8>,
)
    requires
        !ids.contains(k),
    ensures
        spec_run(manifest, cache, digests, ids).cache.dom().contains(k) == cache.dom().contains(
            k,
        ),
        cache.dom().contains(k) ==> spec_run(manifest, cache, digests, ids).cache[k] == cache[k],
    decreases ids.len(),
{
    if ids.len() > 0 {
        let st = spec_step(manifest, cache, digests, ids[0]);
        assert(ids[0] != k);
        assert(!ids.skip(1).contains(k)) by {
            if ids.skip(1).contains(k) {
                let w = choose|w: int| 0 <= w < ids.skip(1).len() && ids.skip(1)[w] == k;
                assert(ids[w + 1] == k);
            }
        }
        lemma_run_frame(manifest, st.cache, digests, ids.skip(1), k);
    }
}

/// Everything a run freshly hashes is one of its candidates.
pub proof fn lemma_hashed_in_candidates(
    manifest: Map<Seq<u8>, Seq<u8>>,
    cache: Map<Seq<u8>, Seq<u8>>,
    digests: Map<Seq<u8>, Seq<u8>>,
    ids: Seq<Seq<u8>>,
    k: Seq<u8>,
)
    requires
        spec_run(manifest, cache, digests, ids).hashed.contains(k),
    ensures
        ids.contains(k),
    decreases ids.len(),
{
    if ids.len() > 0 {
        let st = spec_step(manifest, cache, digests, ids[0]);
        let rest = spec_run(manifest, st.cache, digests, ids.skip(1));
        if k == ids[0] {
            assert(ids.contains(k)) by {
                assert(ids[0] == k);
            }
        } else {
            lemma_hashed_in_candidates(manifest, st.cache, digests, ids.skip(1), k);
            let w = choose|w: int| 0 <= w < ids.skip(1).len() && ids.skip(1)[w] == k;
            assert(ids[w + 1] == k);
        }
    }
}

/// A candidate whose verification concluded `Ok` leaves the cache's
/// final state holding the manifest's expected fingerprint for it.
pub proof fn lemma_ok_keeps_expected(
    manifest: Map<Seq<u8>, Seq<u8>>,
    cache: Map<Seq<u8>, Seq<u8>>,
    digests: Map<Seq<u8>, Seq<u8>>,
    ids: Seq<Seq<u8>>,
    i: int,
)
    requires
        distinct_ids(ids),
        0 <= i < ids.len(),
        spec_run(manifest, cache, digests, ids).statuses[i] is Verified,
    ensures
        manifest.dom().contains(ids[i]),
        spec_run(manifest, cache, digests, ids).cache.dom().contains(ids[i]),
        spec_run(manifest, cache, digests, ids).cache[ids[i]] == manifest[ids[i]],
    decreases ids.len(),
{
    let st = spec_step(manifest, cache, digests, ids[0]);
    let rest_ids = ids.skip(1);
    lemma_run_length(manifest, st.cache, digests, rest_ids);
    lemma_distinct_rest(ids);
    if i == 0 {
        lemma_run_frame(manifest, st.cache, digests, rest_ids, ids[0]);
    } else {
        lemma_ok_keeps_expected(manifest, st.cache, digests, rest_ids, i - 1);
        assert(rest_ids[i - 1] == ids[i]);
    }
}

/// A candidate whose verification concluded in a mismatch has no entry
/// in the cache's final state, and its report carries the manifest's
/// expected fingerprint beside the one computed — the cached one where
/// the cache held one, else the disk's digest.
pub proof fn lemma_mismatch_clears_entry(
    manifest: Map<Seq<u8>, Seq<u8>>,
    cache: Map<Seq<u8>, Seq<u8>>,
    digests: Map<Seq<u8>, Seq<u8>>,
    ids: Seq<Seq<u8>>,
    i: int,
)
    requires
        distinct_ids(ids),
        0 <= i < ids.len(),
        spec_run(manifest, cache, digests, ids).statuses[i] is Mismatch,
    ensures
        manifest.dom().contains(ids[i]),
        !spec_run(manifest, cache, digests, ids).cache.dom().contains(ids[i]),
        spec_run(manifest, cache, digests, ids).statuses[i] matches StatusSpec::Mismatch {
            expected,
            actual,
        } && expected == manifest[ids[i]] && actual == (if cache.dom().contains(ids[i]) {
            cache[ids[i]]
        } else {
            digests[ids[i]]
        }),
    decreases ids.len(),
{
    let st = spec_step(manifest, cache, digests, ids[0]);
    let rest_ids = ids.skip(1);
    lemma_run_length(manifest, st.cache, digests, rest_ids);
    lemma_distinct_rest(ids);
    if i == 0 {
        lemma_run_frame(manifest, st.cache, digests, rest_ids, ids[0]);
    } else {
        lemma_mismatch_clears_entry(manifest, st.cache, digests, rest_ids, i - 1);
        assert(rest_ids[i - 1] == ids[i]);
        assert(st.cache.dom().contains(ids[i]) == cache.dom().contains(ids[i])
            && (cache.dom().contains(ids[i]) ==> st.cache[ids[i]] == cache[ids[i]]));
    }
}

/// A candidate absent from the manifest is reported so, is never
/// hashed, and leaves the cache untouched at its identity.
pub proof fn lemma_absent_untouched(
    manifest: Map<Seq<u8>, Seq<u8>>,
    cache: Map<Seq<u8>, Seq<u8>>,
    digests: Map<Seq<u8>, Seq<u8>>,
    ids: Seq<Seq<u8>>,
    i: int,
)
    requires
        distinct_ids(ids),
        0 <= i < ids.len(),
        !manifest.dom().contains(ids[i]),
    ensures
        spec_run(manifest, cache, digests, ids).statuses[i] is AbsentInManifest,
        !spec_run(manifest, cache, digests, ids).hashed.contains(ids[i]),
        spec_run(manifest, cache, digests, ids).cache.dom().contains(ids[i]) == cache.dom()
            .contains(ids[i]),
        cache.dom().contains(ids[i]) ==> spec_run(manifest, cache, digests, ids).cache[ids[i]]
            == cache[ids[i]],
    decreases ids.len(),
{
    let st = spec_step(manifest, cache, digests, ids[0]);
    let rest_ids = ids.skip(1);
    let rest = spec_run(manifest, st.cache, digests, rest_ids);
    lemma_run_length(manifest, st.cache, digests, rest_ids);
    lemma_distinct_rest(ids);
    if i == 0 {
        lemma_run_frame(manifest, st.cache, digests, rest_ids, ids[0]);
        if rest.hashed.contains(ids[0]) {
            lemma_hashed_in_candidates(manifest, st.cache, digests, rest_ids, ids[0]);
        }
    } else {
        lemma_absent_untouched(manifest, st.cache, digests, rest_ids, i - 1);
        assert(rest_ids[i - 1] == ids[i]);
        if spec_run(manifest, cache, digests, ids).hashed.contains(ids[i]) && !rest.hashed.contains(
            ids[i],
        ) {
            assert(ids[i] == ids[0]);
        }
    }
}

/// A run from a truthful cache — one whose every candidate entry holds
/// that candidate's digest — is determined by manifest and disk alone:
/// every status is `expected_status`; the final cache holds the digest
/// of every manifest candidate the disk matches, holds nothing for one
/// that mismatches, and is untouched elsewhere; and exactly the
/// manifest candidates the cache lacked were freshly hashed.
pub proof fn lemma_run_characterized(
    manifest: Map<Seq<u8>, Seq<u8>>,
    cache: Map<Seq<u8>, Seq<u8>>,
    digests: Map<Seq<u8>, Seq<u8>>,
    ids: Seq<Seq<u8>>,
)
    requires
        distinct_ids(ids),
        cache_truthful(cache, digests, ids),
    ensures
        spec_run(manifest, cache, digests, ids).statuses.len() == ids.len(),
        forall|i: int|
            0 <= i < ids.len() ==> spec_run(manifest, cache, digests, ids).statuses[i]
                == expected_status(manifest, digests, #[trigger] ids[i]),
        forall|k: Seq<u8>|
            #![auto]
            ids.contains(k) && manifest.dom().contains(k) && digests[k] == manifest[k]
                ==> spec_run(manifest, cache, digests, ids).cache.dom().contains(k) && spec_run(
                manifest,
                cache,
                digests,
                ids,
            ).cache[k] == digests[k],
        forall|k: Seq<u8>|
            #![auto]
            ids.contains(k) && manifest.dom().contains(k) && digests[k] != manifest[k]
                ==> !spec_run(manifest, cache, digests, ids).cache.dom().contains(k),
        forall|k: Seq<u8>|
            #![auto]
            !(ids.contains(k) && manifest.dom().contains(k)) ==> spec_run(
                manifest,
                cache,
                digests,
                ids,
            ).cache.dom().contains(k) == cache.dom().contains(k) && (cache.dom().contains(k)
                ==> spec_run(manifest, cache, digests, ids).cache[k] == cache[k]),
        forall|k: Seq<u8>|
            #![auto]
            spec_run(manifest, cache, digests, ids).hashed.contains(k) == (ids.contains(k)
                && manifest.dom().contains(k) && !cache.dom().contains(k)),
    decreases ids.len(),
{
    let r = spec_run(manifest, cache, digests, ids);
    if ids.len() == 0 {
        assert(forall|k: Seq<u8>| !ids.contains(k));
        assert(forall|k: Seq<u8>| !r.hashed.contains(k));
    } else {
        let id0 = ids[0];
        let st = spec_step(manifest, cache, digests, id0);
        let rest_ids = ids.skip(1);
        let rest = spec_run(manifest, st.cache, digests, rest_ids);
        lemma_distinct_rest(ids);
        assert(ids.contains(id0)) by {
            assert(ids[0] == id0);
        }
        assert forall|k: Seq<u8>| rest_ids.contains(k) implies ids.contains(k) && k != id0 by {
            let w = choose|w: int| 0 <= w < rest_ids.len() && rest_ids[w] == k;
            assert(ids[w + 1] == k);
        }
        assert forall|k: Seq<u8>| ids.contains(k) && k != id0 implies rest_ids.contains(k) by {
            let w = choose|w: int| 0 <= w < ids.len() && ids[w] == k;
            assert(w != 0);
            assert(rest_ids[w - 1] == k);
        }
        // the step's computed fingerprint is the disk's digest
        if manifest.dom().contains(id0) && cache.dom().contains(id0) {
            assert(cache[id0] == digests[id0]);
        }
        // the step touches no other identity
        assert forall|k: Seq<u8>| k != id0 implies st.cache.dom().contains(k) == cache.dom()
            .contains(k) && (cache.dom().contains(k) ==> st.cache[k] == cache[k]) by {}
        assert(cache_truthful(st.cache, digests, rest_ids)) by {
            assert forall|k: Seq<u8>|
                rest_ids.contains(k) && st.cache.dom().contains(k) implies #[trigger] st.cache[k]
                == digests[k] by {
                assert(k != id0);
            }
        }
        lemma_run_characterized(manifest, st.cache, digests, rest_ids);
        // statuses
        assert(r.statuses[0] == st.status);
        assert(st.status == expected_status(manifest, digests, id0));
        assert forall|i: int| 0 < i < ids.len() implies r.statuses[i] == expected_status(
            manifest,
            digests,
            #[trigger] ids[i],
        ) by {
            assert(r.statuses[i] == rest.statuses[i - 1]);
            assert(rest_ids[i - 1] == ids[i]);
        }
        // the step's own entry, as rest leaves it
        if manifest.dom().contains(id0) {
            if digests[id0] == manifest[id0] {
                assert(st.cache.dom().contains(id0) && st.cache[id0] == digests[id0]);
            } else {
                assert(!st.cache.dom().contains(id0));
            }
        }
        assert(!(rest_ids.contains(id0) && manifest.dom().contains(id0)));
        // final cache, per identity
        assert forall|k: Seq<u8>|
            #![auto]
            ids.contains(k) && manifest.dom().contains(k) && digests[k] == manifest[k] implies r
            .cache.dom().contains(k) && r.cache[k] == digests[k] by {
            if k != id0 {
                assert(rest_ids.contains(k));
            }
        }
        assert forall|k: Seq<u8>|
            #![auto]
            ids.contains(k) && manifest.dom().contains(k) && digests[k] != manifest[k]
            implies !r.cache.dom().contains(k) by {
            if k != id0 {
                assert(rest_ids.contains(k));
            }
        }
        assert forall|k: Seq<u8>|
            #![auto]
            !(ids.contains(k) && manifest.dom().contains(k)) implies r.cache.dom().contains(k)
            == cache.dom().contains(k) && (cache.dom().contains(k) ==> r.cache[k] == cache[k]) by {
            assert(!(rest_ids.contains(k) && manifest.dom().contains(k)));
            if k == id0 {
                assert(!manifest.dom().contains(id0));
                assert(st.cache == cache);
            } else {
                assert(st.cache.dom().contains(k) == cache.dom().contains(k));
                assert(cache.dom().contains(k) ==> st.cache[k] == cache[k]);
            }
            assert(rest.cache.dom().contains(k) == st.cache.dom().contains(k));
            assert(st.cache.dom().contains(k) ==> rest.cache[k] == st.cache[k]);
        }
        // hashed, per identity
        assert forall|k: Seq<u8>|
            #![auto]
            r.hashed.contains(k) == (ids.contains(k) && manifest.dom().contains(k)
                && !cache.dom().contains(k)) by {
            if k == id0 {
                assert(rest.hashed.contains(id0) == (rest_ids.contains(id0)
                    && manifest.dom().contains(id0) && !st.cache.dom().contains(id0)));
                assert(!rest.hashed.contains(id0));
            } else {
                assert(r.hashed.contains(k) == rest.hashed.contains(k));
                assert(st.cache.dom().contains(k) == cache.dom().contains(k));
                assert(rest_ids.contains(k) == (ids.contains(k) && k != id0));
            }
        }
    }
}

/// Idempotence: a second run over the same candidates, manifest and
/// disk, from the cache the first run left, reports the same statuses,
/// leaves the same cache, and re-hashes nothing the first run verified.
pub proof fn lemma_idempotent(
    manifest: Map<Seq<u8>, Seq<u8>>,
    cache: Map<Seq<u8>, Seq<u8>>,
    digests: Map<Seq<u8>, Seq<u8>>,
    ids: Seq<Seq<u8>>,
)
    requires
        distinct_ids(ids),
        cache_truthful(cache, digests, ids),
    ensures
        spec_run(manifest, spec_run(manifest, cache, digests, ids).cache, digests, ids).statuses
            == spec_run(manifest, cache, digests, ids).statuses,
        spec_run(manifest, spec_run(manifest, cache, digests, ids).cache, digests, ids).cache
            == spec_run(manifest, cache, digests, ids).cache,
        forall|i: int|
            0 <= i < ids.len() && spec_run(manifest, cache, digests, ids).statuses[i]
                is Verified ==> !spec_run(
                manifest,
                spec_run(manifest, cache, digests, ids).cache,
                digests,
                ids,
            ).hashed.contains(#[trigger] ids[i]),
{
    let r1 = spec_run(manifest, cache, digests, ids);
    lemma_run_characterized(manifest, cache, digests, ids);
    assert(cache_truthful(r1.cache, digests, ids)) by {
        assert forall|k: Seq<u8>|
            ids.contains(k) && r1.cache.dom().contains(k) implies #[trigger] r1.cache[k]
            == digests[k] by {
            if manifest.dom().contains(k) {
                assert(digests[k] == manifest[k]);
            }
        }
    }
    lemma_run_characterized(manifest, r1.cache, digests, ids);
    let r2 = spec_run(manifest, r1.cache, digests, ids);
    assert forall|i: int| 0 <= i < ids.len() implies r2.statuses[i] == r1.statuses[i] by {
        assert(r1.statuses[i] == expected_status(manifest, digests, ids[i]));
        assert(r2.statuses[i] == expected_status(manifest, digests, ids[i]));
    }
    assert(r2.statuses =~= r1.statuses);
    assert_maps_equal!(r2.cache, r1.cache, k => {
        if ids.contains(k) && manifest.dom().contains(k) {
        } else {
        }
    });
    assert forall|i: int| 0 <= i < ids.len() && r1.statuses[i] is Verified
        implies !r2.hashed.contains(#[trigger] ids[i]) by {
        assert(r1.statuses[i] == expected_status(manifest, digests, ids[i]));
        assert(manifest.dom().contains(ids[i]) && digests[ids[i]] == manifest[ids[i]]);
        assert(r1.cache.dom().contains(ids[i]));
    }
}

/// The cache is purely an optimization: a run from a truthful cache
/// classifies every candidate exactly as a run from no cache at all, so
/// deleting the cache file changes the work done, never the report.
pub proof fn lemma_cache_only_speeds(
    manifest: Map<Seq<u8>, Seq<u8>>,
    cache: Map<Seq<u8>, Seq<u8>>,
    digests: Map<Seq<u8>, Seq<u8>>,
    ids: Seq<Seq<u8>>,
)
    requires
        distinct_ids(ids),
        cache_truthful(cache, digests, ids),
    ensures
        spec_run(manifest, cache, digests, ids).statuses == spec_run(
            manifest,
            Map::empty(),
            digests,
            ids,
        ).statuses,
{
    lemma_run_characterized(manifest, cache, digests, ids);
    assert(cache_truthful(Map::empty(), digests, ids));
    lemma_run_characterized(manifest, Map::empty(), digests, ids);
    let ra = spec_run(manifest, cache, digests, ids);
    let rb = spec_run(manifest, Map::empty(), digests, ids);
    assert forall|i: int| 0 <= i < ids.len() implies ra.statuses[i] == rb.statuses[i] by {
        assert(ra.statuses[i] == expected_status(manifest, digests, ids[i]));
        assert(rb.statuses[i] == expected_status(manifest, digests, ids[i]));
    }
    assert(ra.statuses =~= rb.statuses);
}


/// How a candidate's fingerprint is resolved: the cached one where the
/// cache holds one, else the digest of what is on disk.
pub open spec fn resolved_fingerprint(
    cache: Map<Seq<u8>, Seq<u8>>,
    digests: Map<Seq<u8>, Seq<u8>>,
    k: Seq<u8>,
) -> Seq<u8> {
    if cache.dom().contains(k) {
        cache[k]
    } else {
        digests[k]
    }
}

/// A manifest candidate whose resolved fingerprint equals the expected
/// one is reported verified and the cache's final state holds that
/// fingerprint for it; one whose resolved fingerprint differs is
/// reported with both values and the cache's final state holds nothing
/// for it.
pub proof fn lemma_resolved_decides(
    manifest: Map<Seq<u8>, Seq<u8>>,
    cache: Map<Seq<u8>, Seq<u8>>,
    digests: Map<Seq<u8>, Seq<u8>>,
    ids: Seq<Seq<u8>>,
    i: int,
)
    requires
        distinct_ids(ids),
        0 <= i < ids.len(),
        manifest.dom().contains(ids[i]),
    ensures
        resolved_fingerprint(cache, digests, ids[i]) == manifest[ids[i]] ==> spec_run(
            manifest,
            cache,
            digests,
            ids,
        ).statuses[i] is Verified && spec_run(manifest, cache, digests, ids).cache.dom().contains(
            ids[i],
        ) && spec_run(manifest, cache, digests, ids).cache[ids[i]] == manifest[ids[i]],
        resolved_fingerprint(cache, digests, ids[i]) != manifest[ids[i]] ==> (spec_run(
            manifest,
            cache,
            digests,
            ids,
        ).statuses[i] matches StatusSpec::Mismatch { expected, actual } && expected
            == manifest[ids[i]] && actual == resolved_fingerprint(cache, digests, ids[i]))
            && !spec_run(manifest, cache, digests, ids).cache.dom().contains(ids[i]),
    decreases ids.len(),
{
    let st = spec_step(manifest, cache, digests, ids[0]);
    let rest_ids = ids.skip(1);
    lemma_run_length(manifest, st.cache, digests, rest_ids);
    lemma_distinct_rest(ids);
    if i == 0 {
        lemma_run_frame(manifest, st.cache, digests, rest_ids, ids[0]);
    } else {
        assert(rest_ids[i - 1] == ids[i]);
        assert(st.cache.dom().contains(ids[i]) == cache.dom().contains(ids[i])
            && (cache.dom().contains(ids[i]) ==> st.cache[ids[i]] == cache[ids[i]]));
        assert(resolved_fingerprint(st.cache, digests, ids[i]) == resolved_fingerprint(
            cache,
            digests,
            ids[i],
        ));
        lemma_resolved_decides(manifest, st.cache, digests, rest_ids, i - 1);
    }
}


/// A manifest identity that is no candidate — its file absent from the
/// scan — and that entered the run without a cache entry has none in
/// the cache's final state either, so `find_missing` reports it.
pub proof fn lemma_unscanned_reported_missing(
    manifest: Map<Seq<u8>, Seq<u8>>,
    cache: Map<Seq<u8>, Seq<u8>>,
    digests: Map<Seq<u8>, Seq<u8>>,
    ids: Seq<Seq<u8>>,
    k: Seq<u8>,
)
    requires
        manifest.dom().contains(k),
        !ids.contains(k),
        !cache.dom().contains(k),
    ensures
        !spec_run(manifest, cache, digests, ids).cache.dom().contains(k),
{
    lemma_run_frame(manifest, cache, digests, ids, k);
}


} // verus!
