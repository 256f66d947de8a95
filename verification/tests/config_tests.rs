use native_core::config::{
    composer_hooks_wanted, custom_font_wanted, fstat_hook_wanted, ConfigStore, NativeConfig,
};

fn cfg(bitmoji: bool, metrics: bool, composer: bool, font: Option<&str>) -> NativeConfig {
    NativeConfig {
        disable_bitmoji: bitmoji,
        disable_metrics: metrics,
        composer_hooks: composer,
        custom_emoji_font_path: font.map(|s| s.to_string()),
    }
}

#[test]
fn store_starts_empty_and_serves_the_loaded_value() {
    let mut store = ConfigStore::new();
    assert!(!store.is_loaded());
    store.load(cfg(true, false, true, Some("/fonts/emoji.ttf")));
    assert!(store.is_loaded());
    let c = store.native_config();
    assert!(c.disable_bitmoji);
    assert!(!c.disable_metrics);
    assert!(c.composer_hooks);
    assert_eq!(c.custom_emoji_font_path.as_deref(), Some("/fonts/emoji.ttf"));
}

#[test]
fn reload_replaces_the_stored_value() {
    let mut store = ConfigStore::new();
    store.load(cfg(false, false, false, None));
    store.load(cfg(false, true, false, None));
    let c = store.native_config();
    assert!(c.disable_metrics);
    assert!(!c.disable_bitmoji);
    assert_eq!(c.custom_emoji_font_path, None);
}

#[test]
fn feature_gating_follows_the_toggles() {
    assert!(composer_hooks_wanted(&cfg(false, false, true, None)));
    assert!(!composer_hooks_wanted(&cfg(true, true, false, None)));

    assert!(fstat_hook_wanted(&cfg(true, false, false, None)));
    assert!(fstat_hook_wanted(&cfg(false, true, false, None)));
    assert!(!fstat_hook_wanted(&cfg(false, false, true, None)));

    assert!(custom_font_wanted(&cfg(false, false, false, Some("/f"))));
    assert!(!custom_font_wanted(&cfg(true, true, true, None)));
}
