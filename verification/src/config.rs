//! The native configuration: boolean feature toggles and an optional
//! custom-font path, loaded once from the host at startup and read-only
//! afterwards.

use vstd::prelude::*;

verus! {

/// The feature toggles the host hands over at startup.
pub struct NativeConfig {
    pub disable_bitmoji: bool,
    pub disable_metrics: bool,
    pub composer_hooks: bool,
    pub custom_emoji_font_path: Option<String>,
}

/// Text-level equality of two optional strings.
pub open spec fn opt_string_eq(a: Option<String>, b: Option<String>) -> bool {
    match (a, b) {
        (Some(x), Some(y)) => x@ == y@,
        (None, None) => true,
        _ => false,
    }
}

/// Value equality of two configurations.
pub open spec fn config_eq(a: NativeConfig, b: NativeConfig) -> bool {
    &&& a.disable_bitmoji == b.disable_bitmoji
    &&& a.disable_metrics == b.disable_metrics
    &&& a.composer_hooks == b.composer_hooks
    &&& opt_string_eq(a.custom_emoji_font_path, b.custom_emoji_font_path)
}

/// The owned configuration slot: empty until the host loads a value, then
/// queried on demand.  Reading it before it is loaded is a caller error.
pub struct ConfigStore {
    cfg: Option<NativeConfig>,
}

impl ConfigStore {
    pub closed spec fn loaded(&self) -> bool {
        self.cfg is Some
    }

    pub closed spec fn stored(&self) -> NativeConfig {
        self.cfg.unwrap()
    }

    pub fn new() -> (r: ConfigStore)
        ensures
            !r.loaded(),
    {
        ConfigStore { cfg: None }
    }

    /// Installs (or replaces) the loaded configuration.
    pub fn load(&mut self, cfg: NativeConfig)
        ensures
            final(self).loaded(),
            final(self).stored() == cfg,
    {
        self.cfg = Some(cfg);
    }

    pub fn is_loaded(&self) -> (r: bool)
        ensures
            r == self.loaded(),
    {
        match &self.cfg {
            Some(_) => true,
            None => false,
        }
    }

    /// A copy of the loaded configuration.
    pub fn native_config(&self) -> (r: NativeConfig)
        requires
            self.loaded(),
        ensures
            config_eq(r, self.stored()),
    {
        let cfg = match &self.cfg {
            Some(c) => c,
            None => {
                proof {
                    assert(false);
                }
                return NativeConfig {
                    disable_bitmoji: false,
                    disable_metrics: false,
                    composer_hooks: false,
                    custom_emoji_font_path: None,
                };
            },
        };
        NativeConfig {
            disable_bitmoji: cfg.disable_bitmoji,
            disable_metrics: cfg.disable_metrics,
            composer_hooks: cfg.composer_hooks,
            custom_emoji_font_path: match &cfg.custom_emoji_font_path {
                Some(p) => Some(p.clone()),
                None => None,
            },
        }
    }
}

/// The archive-interception feature is wanted exactly when the host enabled
/// the composer hooks.
pub fn composer_hooks_wanted(cfg: &NativeConfig) -> (r: bool)
    ensures
        r == cfg.composer_hooks,
{
    cfg.composer_hooks
}

/// The file-status interception is wanted exactly when a toggle that it
/// serves is enabled.
pub fn fstat_hook_wanted(cfg: &NativeConfig) -> (r: bool)
    ensures
        r == (cfg.disable_metrics || cfg.disable_bitmoji),
{
    cfg.disable_metrics || cfg.disable_bitmoji
}

/// The font interception is wanted exactly when a custom font path was
/// configured.
pub fn custom_font_wanted(cfg: &NativeConfig) -> (r: bool)
    ensures
        r == (cfg.custom_emoji_font_path is Some),
{
    match &cfg.custom_emoji_font_path {
        Some(_) => true,
        None => false,
    }
}

} // verus!
