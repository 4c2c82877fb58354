use md5check::digest::fingerprint_of;
use md5check::filter::matches_filter;
use md5check::manifest::parse_manifest;
use md5check::reconcile::find_missing;
use md5check::reconcile::judge_candidate;
use md5check::reconcile::plan_candidate;
use md5check::reconcile::record_fingerprint;
use md5check::reconcile::CandidatePlan;
use md5check::reconcile::Status;
use md5check::scan::filter_and_sort;
use md5check::store::FpMap;

const INDEX: &[u8] = b"librusec_local_fb2.inpx";
const SUFFIX: &[u8] = b"inpx";

fn bv(s: &[u8]) -> Vec<u8> {
    s.to_vec()
}

/// Drive one candidate through the reconciler as the tool does, handing
/// it the file's content only when a fresh hash is asked for; `None`
/// stands for a file the run never needs to read.
fn run_one(manifest: &FpMap, cache: &mut FpMap, id: &[u8], content: Option<&[u8]>) -> (Status, bool) {
    match plan_candidate(manifest, cache, id) {
        CandidatePlan::AbsentInManifest => (Status::AbsentInManifest, false),
        CandidatePlan::Cached { fingerprint } => {
            (judge_candidate(manifest, cache, id, &fingerprint), false)
        }
        CandidatePlan::NeedHash => {
            let fp = fingerprint_of(content.expect("content needed for a fresh hash"));
            record_fingerprint(cache, id, &fp);
            (judge_candidate(manifest, cache, id, &fp), true)
        }
    }
}

#[test]
fn fingerprint_of_empty_content() {
    assert_eq!(fingerprint_of(b""), bv(b"d41d8cd98f00b204e9800998ecf8427e"));
}

#[test]
fn fingerprint_of_known_content() {
    assert_eq!(fingerprint_of(b"abc"), bv(b"900150983cd24fb0d6963f7d28e17f72"));
}

#[test]
fn fingerprint_differs_when_a_byte_changes() {
    assert_ne!(fingerprint_of(b"abc"), fingerprint_of(b"abd"));
}

#[test]
fn filter_accepts_archive_names() {
    assert!(matches_filter(b"fb2-001-01.zip", INDEX));
    assert!(matches_filter(b"fb2-123456-789.zip", INDEX));
    assert!(matches_filter(b"fb2-001-01_lost.zip", INDEX));
    assert!(matches_filter(b"librusec_local_fb2.inpx", INDEX));
}

#[test]
fn filter_rejects_other_names() {
    assert!(!matches_filter(b"fb2-001.zip", INDEX));
    assert!(!matches_filter(b"fb2--01.zip", INDEX));
    assert!(!matches_filter(b"fb2-001-01.zip.tmp", INDEX));
    assert!(!matches_filter(b"archive-001-01.zip", INDEX));
    assert!(!matches_filter(b"fb2-001-01_lost2.zip", INDEX));
    assert!(!matches_filter(b"other.inpx", INDEX));
    assert!(!matches_filter(b"", INDEX));
}

#[test]
fn store_insert_get_remove() {
    let mut m = FpMap::new();
    assert_eq!(m.get(b"a"), None);
    m.insert(bv(b"a"), bv(b"1"));
    m.insert(bv(b"b"), bv(b"2"));
    assert_eq!(m.get(b"a"), Some(bv(b"1")));
    assert_eq!(m.get(b"b"), Some(bv(b"2")));
    m.insert(bv(b"a"), bv(b"3"));
    assert_eq!(m.get(b"a"), Some(bv(b"3")));
    assert_eq!(m.len(), 2);
    m.remove(b"a");
    assert_eq!(m.get(b"a"), None);
    assert_eq!(m.get(b"b"), Some(bv(b"2")));
    m.remove(b"missing");
    assert_eq!(m.len(), 1);
}

#[test]
fn store_hands_out_every_pair() {
    let mut m = FpMap::new();
    m.insert(bv(b"x"), bv(b"1"));
    m.insert(bv(b"y"), bv(b"2"));
    let mut pairs = m.to_pairs();
    pairs.sort();
    assert_eq!(pairs, vec![(bv(b"x"), bv(b"1")), (bv(b"y"), bv(b"2"))]);
}

#[test]
fn manifest_keeps_relative_identity_under_root() {
    let text = b"d41d8cd98f00b204e9800998ecf8427e /data/fb2-001-01.zip\n";
    let m = parse_manifest(text, b"/data", INDEX, SUFFIX);
    assert_eq!(
        m.get(b"fb2-001-01.zip"),
        Some(bv(b"d41d8cd98f00b204e9800998ecf8427e"))
    );
    assert_eq!(m.len(), 1);
}

#[test]
fn manifest_normalizes_separators_and_case() {
    let text = b"D41D8CD98F00B204E9800998ECF8427E *data*fb2-001-01.zip\n";
    let m = parse_manifest(text, b"/data", INDEX, SUFFIX);
    assert_eq!(
        m.get(b"fb2-001-01.zip"),
        Some(bv(b"d41d8cd98f00b204e9800998ecf8427e"))
    );
    let text2 = b"aa \\data\\fb2-002-01.zip\n";
    let m2 = parse_manifest(text2, b"/data", INDEX, SUFFIX);
    assert_eq!(m2.get(b"fb2-002-01.zip"), Some(bv(b"aa")));
}

#[test]
fn manifest_index_file_outside_root_keeps_absolute_identity() {
    let text = b"bb \\librusec_local_fb2.inpx\n";
    let m = parse_manifest(text, b"/data", INDEX, SUFFIX);
    assert_eq!(m.get(b"/data/librusec_local_fb2.inpx"), Some(bv(b"bb")));
}

#[test]
fn manifest_drops_malformed_and_filtered_lines() {
    let text = b"onlyonetoken\naa /data/fb2-001-01.zip extra\naa /data/not-an-archive.zip\naa /elsewhere/fb2-001-01.zip\n\n";
    let m = parse_manifest(text, b"/data", INDEX, SUFFIX);
    assert_eq!(m.len(), 0);
}

#[test]
fn manifest_last_line_wins_on_duplicates() {
    let text = b"aa /data/fb2-001-01.zip\nbb /data/fb2-001-01.zip\n";
    let m = parse_manifest(text, b"/data", INDEX, SUFFIX);
    assert_eq!(m.get(b"fb2-001-01.zip"), Some(bv(b"bb")));
    assert_eq!(m.len(), 1);
}

#[test]
fn manifest_without_trailing_newline() {
    let text = b"aa /data/fb2-001-01.zip";
    let m = parse_manifest(text, b"/data", INDEX, SUFFIX);
    assert_eq!(m.get(b"fb2-001-01.zip"), Some(bv(b"aa")));
}

#[test]
fn scan_filters_normalizes_and_sorts() {
    let names = vec![
        bv(b"fb2-002-01.zip"),
        bv(b"notes.txt"),
        bv(b"fb2-001-01_lost.zip"),
        bv(b"librusec_local_fb2.inpx"),
        bv(b"fb2-001-01.zip"),
    ];
    let out = filter_and_sort(&names, INDEX);
    assert_eq!(
        out,
        vec![
            bv(b"fb2-001-01.zip"),
            bv(b"fb2-001-01_lost.zip"),
            bv(b"fb2-002-01.zip"),
            bv(b"librusec_local_fb2.inpx"),
        ]
    );
}

#[test]
fn matching_file_reports_verified_and_stays_cached() {
    let manifest = parse_manifest(
        b"d41d8cd98f00b204e9800998ecf8427e /data/fb2-001-01.zip\n",
        b"/data",
        INDEX,
        SUFFIX,
    );
    let mut cache = FpMap::new();
    let (status, hashed) = run_one(&manifest, &mut cache, b"fb2-001-01.zip", Some(b""));
    assert!(matches!(status, Status::Verified));
    assert!(hashed);
    assert_eq!(
        cache.get(b"fb2-001-01.zip"),
        Some(bv(b"d41d8cd98f00b204e9800998ecf8427e"))
    );
}

#[test]
fn changed_file_reports_both_values_and_clears_entry() {
    let manifest = parse_manifest(
        b"d41d8cd98f00b204e9800998ecf8427e /data/fb2-001-01.zip\n",
        b"/data",
        INDEX,
        SUFFIX,
    );
    let mut cache = FpMap::new();
    let (status, hashed) = run_one(&manifest, &mut cache, b"fb2-001-01.zip", Some(b"x"));
    assert!(hashed);
    match status {
        Status::Mismatch { expected, actual } => {
            assert_eq!(expected, bv(b"d41d8cd98f00b204e9800998ecf8427e"));
            assert_eq!(actual, fingerprint_of(b"x"));
            assert_ne!(actual, expected);
        }
        _ => panic!("expected a mismatch"),
    }
    assert_eq!(cache.get(b"fb2-001-01.zip"), None);
}

#[test]
fn stale_cache_entry_is_cleared_on_mismatch() {
    let manifest = parse_manifest(b"aa /data/fb2-001-01.zip\n", b"/data", INDEX, SUFFIX);
    let mut cache = FpMap::new();
    cache.insert(bv(b"fb2-001-01.zip"), bv(b"bb"));
    let (status, hashed) = run_one(&manifest, &mut cache, b"fb2-001-01.zip", None);
    assert!(!hashed);
    assert!(matches!(status, Status::Mismatch { .. }));
    assert_eq!(cache.get(b"fb2-001-01.zip"), None);
}

#[test]
fn file_absent_from_manifest_is_reported_and_never_hashed() {
    let manifest = parse_manifest(
        b"d41d8cd98f00b204e9800998ecf8427e /data/fb2-001-01.zip\n",
        b"/data",
        INDEX,
        SUFFIX,
    );
    let mut cache = FpMap::new();
    let (status, hashed) = run_one(&manifest, &mut cache, b"fb2-999-01.zip", None);
    assert!(matches!(status, Status::AbsentInManifest));
    assert!(!hashed);
    assert_eq!(cache.len(), 0);
}

#[test]
fn manifest_entry_never_on_disk_is_reported_missing() {
    let manifest = parse_manifest(
        b"d41d8cd98f00b204e9800998ecf8427e /data/fb2-001-01.zip\naa /data/fb2-002-01.zip\n",
        b"/data",
        INDEX,
        SUFFIX,
    );
    let mut cache = FpMap::new();
    let (status, _) = run_one(&manifest, &mut cache, b"fb2-001-01.zip", Some(b""));
    assert!(matches!(status, Status::Verified));
    let missing = find_missing(&manifest, &cache);
    assert_eq!(missing, vec![bv(b"fb2-002-01.zip")]);
}

#[test]
fn second_run_repeats_the_report_without_rehashing_verified_files() {
    let manifest = parse_manifest(
        b"d41d8cd98f00b204e9800998ecf8427e /data/fb2-001-01.zip\naa /data/fb2-002-01.zip\n",
        b"/data",
        INDEX,
        SUFFIX,
    );
    let ids: Vec<&[u8]> = vec![b"fb2-001-01.zip", b"fb2-002-01.zip"];
    let contents: Vec<&[u8]> = vec![b"", b"changed"];
    let mut cache = FpMap::new();
    let mut first: Vec<(Status, bool)> = Vec::new();
    for (id, content) in ids.iter().zip(contents.iter()) {
        first.push(run_one(&manifest, &mut cache, id, Some(content)));
    }
    let cache_after_first = cache.to_pairs();
    let mut second: Vec<(Status, bool)> = Vec::new();
    for (id, content) in ids.iter().zip(contents.iter()) {
        second.push(run_one(&manifest, &mut cache, id, Some(content)));
    }
    assert!(matches!(first[0].0, Status::Verified));
    assert!(matches!(second[0].0, Status::Verified));
    assert!(matches!(first[1].0, Status::Mismatch { .. }));
    assert!(matches!(second[1].0, Status::Mismatch { .. }));
    // the verified file was hashed once, then served from the cache
    assert!(first[0].1);
    assert!(!second[0].1);
    // the mismatched file is re-hashed every run: its entry was removed
    assert!(first[1].1);
    assert!(second[1].1);
    assert_eq!(cache.to_pairs(), cache_after_first);
}

#[test]
fn deleting_the_cache_reproduces_the_classification() {
    let manifest = parse_manifest(
        b"d41d8cd98f00b204e9800998ecf8427e /data/fb2-001-01.zip\naa /data/fb2-002-01.zip\nbb /data/fb2-003-01.zip\n",
        b"/data",
        INDEX,
        SUFFIX,
    );
    let ids: Vec<&[u8]> = vec![b"fb2-001-01.zip", b"fb2-002-01.zip"];
    let contents: Vec<&[u8]> = vec![b"", b"changed"];
    let mut warm = FpMap::new();
    let mut first: Vec<Status> = Vec::new();
    for (id, content) in ids.iter().zip(contents.iter()) {
        first.push(run_one(&manifest, &mut warm, id, Some(content)).0);
    }
    // run again with the populated cache, and once more from none at all
    let mut with_cache: Vec<Status> = Vec::new();
    for (id, content) in ids.iter().zip(contents.iter()) {
        with_cache.push(run_one(&manifest, &mut warm, id, Some(content)).0);
    }
    let mut cold = FpMap::new();
    let mut without_cache: Vec<Status> = Vec::new();
    for (id, content) in ids.iter().zip(contents.iter()) {
        without_cache.push(run_one(&manifest, &mut cold, id, Some(content)).0);
    }
    for (a, b) in with_cache.iter().zip(without_cache.iter()) {
        match (a, b) {
            (Status::Verified, Status::Verified) => {}
            (Status::AbsentInManifest, Status::AbsentInManifest) => {}
            (
                Status::Mismatch { expected: e1, actual: a1 },
                Status::Mismatch { expected: e2, actual: a2 },
            ) => {
                assert_eq!(e1, e2);
                assert_eq!(a1, a2);
            }
            _ => panic!("classifications differ between warm and cold runs"),
        }
    }
    assert_eq!(warm.to_pairs(), cold.to_pairs());
    assert_eq!(find_missing(&manifest, &warm), find_missing(&manifest, &cold));
}

#[test]
fn chunked_hashing_matches_on_large_content() {
    // larger than one chunk, so the streaming loop folds several windows
    let big = vec![7u8; 21 * 1024 * 1024];
    let direct = fingerprint_of(&big);
    assert_eq!(direct.len(), 32);
    let again = fingerprint_of(&big);
    assert_eq!(direct, again);
}
