use native_core::region::{MapEntry, MappedLib, Perms};
use native_core::sig::{Arch, SignatureCache};

fn rx() -> Perms {
    Perms { read: true, write: false, execute: true }
}

fn rw() -> Perms {
    Perms { read: true, write: true, execute: false }
}

fn lib_with(regions: Vec<(usize, usize, Perms)>) -> MappedLib {
    let entries: Vec<MapEntry> = regions
        .into_iter()
        .map(|(start, end, perms)| MapEntry {
            start,
            end,
            perms,
            path: Some(b"/data/libclient.so".to_vec()),
        })
        .collect();
    let mut lib = MappedLib::new(b"libclient.so".to_vec());
    lib.search(&entries).unwrap();
    lib
}

#[test]
fn scan_finds_pattern_in_executable_region() {
    let mut cache = SignatureCache::new();
    let lib = lib_with(vec![(0x1000, 0x1008, rx())]);
    let snaps = vec![vec![0u8, 0x11, 0x22, 0x33, 0, 0, 0, 0]];
    let r = cache.find_signature_executable(&lib, &snaps, "11 22 33");
    assert_eq!(r, Some(0x1001));
}

#[test]
fn non_executable_regions_are_never_scanned() {
    let mut cache = SignatureCache::new();
    let lib = lib_with(vec![(0x1000, 0x1004, rw())]);
    let snaps = vec![vec![0x11u8, 0x22, 0x33, 0]];
    let r = cache.find_signature_executable(&lib, &snaps, "11 22 33");
    assert_eq!(r, None);
    assert_eq!(cache.scans_performed(), 0);
}

#[test]
fn second_lookup_is_served_from_cache_without_scanning() {
    let mut cache = SignatureCache::new();
    let lib = lib_with(vec![(0x2000, 0x2006, rx())]);
    let snaps = vec![vec![9u8, 9, 0xAB, 0xCD, 9, 9]];
    let first = cache.find_signature_executable(&lib, &snaps, "AB CD");
    assert_eq!(first, Some(0x2002));
    assert_eq!(cache.scans_performed(), 1);
    let second = cache.find_signature_executable(&lib, &snaps, "AB CD");
    assert_eq!(second, first);
    // no further raw scan happened: the second call hit the cache
    assert_eq!(cache.scans_performed(), 1);
}

#[test]
fn failed_lookup_is_cached_and_never_retried() {
    let mut cache = SignatureCache::new();
    // the pattern sits only in the second executable region, but the first
    // scan caches an empty outcome under the pattern text, so later regions
    // are answered from the cache
    let lib = lib_with(vec![(0x1000, 0x1004, rx()), (0x2000, 0x2004, rx())]);
    let snaps = vec![vec![0u8, 0, 0, 0], vec![0xAAu8, 0xBB, 0, 0]];
    let r = cache.find_signature_executable(&lib, &snaps, "AA BB");
    assert_eq!(r, None);
    assert_eq!(cache.scans_performed(), 1);
}

#[test]
fn preloaded_offsets_answer_without_any_scan() {
    let mut cache = SignatureCache::new();
    cache.add_signatures(vec![("AA BB".to_string(), vec![0x10])]);
    let lib = lib_with(vec![(0x5000, 0x5004, rx())]);
    let snaps = vec![vec![0u8, 0, 0, 0]];
    let r = cache.find_signature_executable(&lib, &snaps, "AA BB");
    // the cached relative offset is rebased onto the first region
    assert_eq!(r, Some(0x5010));
    assert_eq!(cache.scans_performed(), 0);
}

#[test]
fn find_signatures_returns_all_matches_without_once() {
    let mut cache = SignatureCache::new();
    let data = vec![0x7Fu8, 0, 0x7F, 0x7F];
    let r = cache.find_signatures(0x100, &data, "7F", false);
    assert_eq!(r, vec![0x100, 0x102, 0x103]);
    // and the relative offsets are what the cache reports back
    assert_eq!(cache.get_signatures(), vec![("7F".to_string(), vec![0, 2, 3])]);
}

#[test]
fn add_and_get_signatures_round_trip() {
    let mut cache = SignatureCache::new();
    let entries = vec![
        ("AA ?".to_string(), vec![1, 2, 3]),
        ("BB".to_string(), vec![]),
    ];
    cache.add_signatures(entries.clone());
    assert_eq!(cache.get_signatures(), entries);
}

#[test]
fn export_import_round_trip() {
    let mut cache = SignatureCache::new();
    cache.add_signatures(vec![
        ("AA BB ? CC".to_string(), vec![0x1234, 0x777]),
        ("DD".to_string(), vec![]),
    ]);
    let payload = cache.export_signatures();
    // the payload is ordinary JSON of (pattern, offsets) entries
    let parsed: Vec<(String, Vec<usize>)> = serde_json::from_str(&payload).unwrap();
    assert_eq!(parsed, cache.get_signatures());

    let mut fresh = SignatureCache::new();
    assert!(fresh.import_signatures(&payload));
    assert_eq!(fresh.get_signatures(), cache.get_signatures());
}

#[test]
fn import_rejects_bad_payload() {
    let mut cache = SignatureCache::new();
    assert!(!cache.import_signatures("not json"));
    assert_eq!(cache.get_signatures(), Vec::<(String, Vec<usize>)>::new());
}

#[test]
fn dual_pattern_resolution_applies_the_picked_offset() {
    let lib = lib_with(vec![(0x1000, 0x1008, rx())]);
    let snaps = vec![vec![0u8, 0, 0, 0xEE, 0xFF, 0, 0, 0]];

    let mut cache = SignatureCache::new();
    let r64 = cache.find_signature(&lib, &snaps, Arch::Aarch64, "EE FF", -2, "01", 0);
    assert_eq!(r64, Some(0x1001));

    let mut cache = SignatureCache::new();
    let r32 = cache.find_signature(&lib, &snaps, Arch::Arm, "01", 0, "EE FF", 4);
    assert_eq!(r32, Some(0x1007));
}
