use native_core::hooks::{CodeImage, HookRegistry};

const SQLITE_OPEN: usize = 0x7000_1000;
const OPEN_BEHAVIOR: usize = 11;
const INTERPOSER: usize = 99;

#[test]
fn install_redirects_target_and_keeps_original_reachable() {
    let mut code = CodeImage::new();
    let mut hooks = HookRegistry::new();
    code.define(SQLITE_OPEN, OPEN_BEHAVIOR);

    let original = hooks.install(&mut code, SQLITE_OPEN, INTERPOSER).unwrap();

    // calling the target through the foreign call path now reaches the
    // interposer ...
    assert_eq!(code.behavior_at(SQLITE_OPEN), Some(INTERPOSER));
    // ... while the returned original pointer still executes the pre-hook
    // behavior
    assert_ne!(original, SQLITE_OPEN);
    assert_eq!(code.behavior_at(original), Some(OPEN_BEHAVIOR));
}

#[test]
fn original_is_looked_up_before_calling_through() {
    let mut code = CodeImage::new();
    let mut hooks = HookRegistry::new();
    code.define(SQLITE_OPEN, OPEN_BEHAVIOR);
    let original = hooks.install(&mut code, SQLITE_OPEN, INTERPOSER).unwrap();

    assert_eq!(hooks.original_of(SQLITE_OPEN), Some(original));
    // a target never hooked has no original recorded: calling through
    // would be a broken hook chain, and callers must treat it as fatal
    assert_eq!(hooks.original_of(0xdead), None);
}

#[test]
fn installing_on_an_unknown_target_fails() {
    let mut code = CodeImage::new();
    let mut hooks = HookRegistry::new();
    assert_eq!(hooks.install(&mut code, 0x1234, INTERPOSER), None);
    assert_eq!(hooks.original_of(0x1234), None);
}

#[test]
fn unrelated_addresses_are_untouched() {
    let mut code = CodeImage::new();
    let mut hooks = HookRegistry::new();
    code.define(0x1000, 1);
    code.define(0x2000, 2);
    let orig = hooks.install(&mut code, 0x1000, 77).unwrap();
    assert_eq!(code.behavior_at(0x2000), Some(2));
    assert_eq!(code.behavior_at(0x1000), Some(77));
    assert_eq!(code.behavior_at(orig), Some(1));
}

#[test]
fn two_hooks_on_two_targets() {
    let mut code = CodeImage::new();
    let mut hooks = HookRegistry::new();
    code.define(0x1000, 1);
    code.define(0x2000, 2);
    let o1 = hooks.install(&mut code, 0x1000, 10).unwrap();
    let o2 = hooks.install(&mut code, 0x2000, 20).unwrap();
    assert_eq!(code.behavior_at(0x1000), Some(10));
    assert_eq!(code.behavior_at(0x2000), Some(20));
    assert_eq!(code.behavior_at(o1), Some(1));
    assert_eq!(code.behavior_at(o2), Some(2));
    assert_eq!(hooks.original_of(0x1000), Some(o1));
    assert_eq!(hooks.original_of(0x2000), Some(o2));
}
