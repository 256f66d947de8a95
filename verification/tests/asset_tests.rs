use native_core::asset::{rewrite_archive, should_intercept, AssetStore, RewriteError};
use native_core::codec::{ComposerModule, ModuleTag};
use native_core::inject::{inject_loader, inject_loader_random, u32_decimal};

fn module_from(pairs: Vec<(ModuleTag, ModuleTag)>) -> ComposerModule {
    let mut m = ComposerModule::parse(vec![0x33, 0xC6, 0x00, 0x01, 0, 0, 0, 0]).unwrap();
    m.set_tags(pairs);
    m
}

#[test]
fn store_serves_only_intercepted_handles() {
    let mut store = AssetStore::new();
    store.insert(7, vec![1, 2, 3]);
    assert_eq!(store.stored_length(7), Some(3));
    assert_eq!(store.stored_bytes(7), Some(&vec![1, 2, 3]));
    // a handle never seen by an interception always delegates
    assert_eq!(store.stored_length(8), None);
    assert_eq!(store.stored_bytes(8), None);
}

#[test]
fn store_replaces_on_reopen_and_releases_on_close() {
    let mut store = AssetStore::new();
    store.insert(7, vec![1]);
    store.insert(7, vec![2, 2]);
    assert_eq!(store.stored_length(7), Some(2));
    store.insert(9, vec![5]);
    store.remove(7);
    assert_eq!(store.stored_bytes(7), None);
    assert_eq!(store.stored_bytes(9), Some(&vec![5]));
    store.remove(42);
    assert_eq!(store.stored_bytes(9), Some(&vec![5]));
}

#[test]
fn interception_targets_the_archive_name_prefix() {
    assert!(should_intercept(&b"bridge_observables.bundle".to_vec()));
    assert!(should_intercept(&b"bridge_observables".to_vec()));
    assert!(!should_intercept(&b"bridge".to_vec()));
    assert!(!should_intercept(&b"other_asset.png".to_vec()));
}

#[test]
fn decimal_suffix_formatting() {
    assert_eq!(u32_decimal(0), b"0".to_vec());
    assert_eq!(u32_decimal(1234), b"1234".to_vec());
    assert_eq!(u32_decimal(4294967295), b"4294967295".to_vec());
}

#[test]
fn injection_renames_and_appends() {
    let name = b"files/src/utils/converter.js".to_vec();
    let mut m = module_from(vec![
        (
            ModuleTag::new(0x80, b"files/other.js".to_vec()),
            ModuleTag::new(0x80, b"other content".to_vec()),
        ),
        (
            ModuleTag::new(0x80, name.clone()),
            ModuleTag::new(0x80, b"original content".to_vec()),
        ),
    ]);
    let injected = inject_loader(
        &mut m,
        &b"bridge_observables.bundle".to_vec(),
        &b"LOADER".to_vec(),
        &b"42".to_vec(),
    );
    assert!(injected);
    let tags = m.get_tags();
    assert_eq!(tags.len(), 3);
    // the untouched pair stays as it was
    assert_eq!(tags[0].0.get_buffer(), &b"files/other.js".to_vec());
    // the matched pair's first tag is renamed away from the original name
    assert_eq!(
        tags[1].0.get_buffer(),
        &b"files/src/utils/converter42.js".to_vec()
    );
    assert_ne!(tags[1].0.get_buffer(), &name);
    assert_eq!(tags[1].1.get_buffer(), &b"original content".to_vec());
    // the appended pair carries the original, unmodified name and the shim
    assert_eq!(tags[2].0.get_buffer(), &name);
    assert_eq!(tags[2].0.get_tag_type(), 128);
    assert_eq!(tags[2].1.get_tag_type(), 128);
    assert_eq!(
        tags[2].1.get_buffer(),
        &b"LOADER;module.exports = require(\"bridge_observables/files/src/utils/converter42\");"
            .to_vec()
    );
}

#[test]
fn injection_without_a_matching_pair_changes_nothing() {
    let mut m = module_from(vec![(
        ModuleTag::new(0x80, b"files/other.js".to_vec()),
        ModuleTag::new(0x80, b"content".to_vec()),
    )]);
    let injected = inject_loader(
        &mut m,
        &b"bridge_observables.bundle".to_vec(),
        &b"LOADER".to_vec(),
        &b"42".to_vec(),
    );
    assert!(!injected);
    let tags = m.get_tags();
    assert_eq!(tags.len(), 1);
    assert_eq!(tags[0].0.get_buffer(), &b"files/other.js".to_vec());
}

#[test]
fn injection_only_rewrites_the_first_match() {
    let name = b"a/src/utils/converter.js".to_vec();
    let mut m = module_from(vec![
        (
            ModuleTag::new(0x80, name.clone()),
            ModuleTag::new(0x80, b"first".to_vec()),
        ),
        (
            ModuleTag::new(0x80, name.clone()),
            ModuleTag::new(0x80, b"second".to_vec()),
        ),
    ]);
    assert!(inject_loader(
        &mut m,
        &b"bridge_observables.bundle".to_vec(),
        &b"7".to_vec(),
        &b"5".to_vec(),
    ));
    let tags = m.get_tags();
    assert_eq!(tags.len(), 3);
    assert_ne!(tags[0].0.get_buffer(), &name);
    // the second matching pair is left alone
    assert_eq!(tags[1].0.get_buffer(), &name);
}

#[test]
fn random_suffix_injection_renames_with_digits() {
    let name = b"files/src/utils/converter.js".to_vec();
    let mut m = module_from(vec![(
        ModuleTag::new(0x80, name.clone()),
        ModuleTag::new(0x80, b"original".to_vec()),
    )]);
    assert!(inject_loader_random(
        &mut m,
        &b"bridge_observables.bundle".to_vec(),
        &b"L".to_vec(),
    ));
    let tags = m.get_tags();
    assert_eq!(tags.len(), 2);
    let renamed = tags[0].0.get_buffer().clone();
    assert_ne!(renamed, name);
    assert!(renamed.starts_with(b"files/src/utils/converter"));
    assert!(renamed.ends_with(b".js"));
    let digits = &renamed[b"files/src/utils/converter".len()..renamed.len() - 3];
    assert!(!digits.is_empty());
    assert!(digits.iter().all(|b| b.is_ascii_digit()));
    assert_eq!(tags[1].0.get_buffer(), &name);
}

#[test]
fn rewrite_pipeline_round_trips_through_compression() {
    let name = b"files/src/utils/converter.js".to_vec();
    let m = module_from(vec![(
        ModuleTag::new(0x80, name.clone()),
        ModuleTag::new(0x80, b"module body".to_vec()),
    )]);
    let plain = m.to_bytes();
    let archive = zstd::stream::encode_all(&plain[..], 3).unwrap();

    let out = rewrite_archive(
        &archive,
        &b"bridge_observables.bundle".to_vec(),
        &b"LOADER".to_vec(),
        &b"99".to_vec(),
    )
    .unwrap();

    let rewritten_plain = zstd::stream::decode_all(&out[..]).unwrap();
    let rewritten = ComposerModule::parse(rewritten_plain).unwrap();
    let tags = rewritten.get_tags();
    assert_eq!(tags.len(), 2);
    assert_eq!(
        tags[0].0.get_buffer(),
        &b"files/src/utils/converter99.js".to_vec()
    );
    assert_eq!(tags[1].0.get_buffer(), &name);
    assert_eq!(
        tags[1].1.get_buffer(),
        &b"LOADER;module.exports = require(\"bridge_observables/files/src/utils/converter99\");"
            .to_vec()
    );
}

#[test]
fn rewrite_rejects_garbage_compression() {
    let r = rewrite_archive(
        &vec![1, 2, 3, 4],
        &b"bridge_observables.bundle".to_vec(),
        &b"L".to_vec(),
        &b"1".to_vec(),
    );
    assert_eq!(r, Err(RewriteError::DecompressFailed));
}

#[test]
fn rewrite_rejects_wrong_container_version() {
    let plain = vec![0x33, 0xC6, 0x00, 0x02, 0, 0, 0, 0];
    let archive = zstd::stream::encode_all(&plain[..], 3).unwrap();
    let r = rewrite_archive(
        &archive,
        &b"bridge_observables.bundle".to_vec(),
        &b"L".to_vec(),
        &b"1".to_vec(),
    );
    assert!(matches!(r, Err(RewriteError::Format(_))));
}
