use native_core::region::{contains_bytes, locate_with_fallback, MapEntry, MappedLib, Perms};

fn r_x() -> Perms {
    Perms { read: true, write: false, execute: true }
}

fn entry(start: usize, end: usize, path: Option<&[u8]>) -> MapEntry {
    MapEntry { start, end, perms: r_x(), path: path.map(|p| p.to_vec()) }
}

#[test]
fn substring_filter() {
    assert!(contains_bytes(&b"/data/app/libclient.so".to_vec(), &b"libclient.so".to_vec()));
    assert!(contains_bytes(&b"abc".to_vec(), &b"".to_vec()));
    assert!(!contains_bytes(&b"ab".to_vec(), &b"abc".to_vec()));
    assert!(!contains_bytes(&b"/data/libother.so".to_vec(), &b"libclient".to_vec()));
}

#[test]
fn search_records_matching_regions_in_order() {
    let maps = vec![
        entry(0x1000, 0x2000, Some(b"/data/libclient.so")),
        entry(0x3000, 0x4000, Some(b"/data/libother.so")),
        entry(0x5000, 0x6000, Some(b"/data/libclient.so")),
        entry(0x7000, 0x8000, None),
    ];
    let mut lib = MappedLib::new(b"libclient.so".to_vec());
    lib.search(&maps).unwrap();
    assert_eq!(lib.regions.len(), 2);
    assert_eq!(lib.regions[0].start, 0x1000);
    assert_eq!(lib.regions[0].end, 0x2000);
    assert_eq!(lib.regions[1].start, 0x5000);
}

#[test]
fn search_reports_absence() {
    let maps = vec![entry(0x1000, 0x2000, Some(b"/data/libother.so"))];
    let mut lib = MappedLib::new(b"libclient.so".to_vec());
    assert!(lib.search(&maps).is_err());
}

#[test]
fn fallback_name_is_tried_after_the_primary() {
    let maps = vec![entry(0x1000, 0x2000, Some(b"/data/split_config.arm64.apk"))];
    let lib = locate_with_fallback(
        b"libclient.so".to_vec(),
        b"split_config.arm".to_vec(),
        &maps,
    )
    .unwrap();
    assert_eq!(lib.name, b"split_config.arm".to_vec());
    assert_eq!(lib.regions.len(), 1);

    let empty: Vec<MapEntry> = Vec::new();
    assert!(locate_with_fallback(
        b"libclient.so".to_vec(),
        b"split_config.arm".to_vec(),
        &empty
    )
    .is_err());
}
