use vstd::prelude::*;

pub mod cfg;
pub mod channel;
pub mod channel_roundtrip;
pub mod config;
pub mod config_syntax;
pub mod config_types;
pub mod diff;
pub mod general;
pub mod gsettings;
pub mod gtk;
pub mod json;
pub mod maps;
pub mod ordmap;
pub mod panel;
pub mod patch;
pub mod serde;
pub mod text;
pub mod vector;
pub mod xfconf;

use crate::general::{
    general_made_of, general_mismatch, lemma_general_diff_self, ConfigPatch, General, GeneralError,
    GeneralPatch,
};
use crate::gtk::{
    lemma_settings_diff_self, settings_diff, settings_patch_is_empty, settings_patch_view, settings_view,
    GtkPatch,
};
use crate::gtk::Gtk;
use crate::panel::{lemma_map_made_of_self, lemma_plugin_configs_diff_self, map_made_of, PluginConfigs, PluginConfigsPatch};
use crate::xfconf::{
    channel_owner, channel_view, channels_diff, channels_patch_is_empty, channels_patch_view, cps_view,
    lemma_channels_diff_self, vv_no_nan,
    panel_channel, Xfconf, XfconfPatch,
};

verus! {

/// The whole configuration: xfconf channels, panel plugins, GTK settings, and general files.
pub struct XfceConfig {
    pub xfconf: Xfconf,
    pub panel: PluginConfigs,
    pub gtk: Gtk,
    pub general: General,
}

/// The change of the whole configuration.
pub struct XfceConfigPatch {
    pub xfconf: XfconfPatch,
    pub panel: PluginConfigsPatch,
    pub gtk: GtkPatch,
    pub general: GeneralPatch,
}

/// `p` is the change that a successful diff makes of `old` and `new`.
pub open spec fn config_made_of(p: XfceConfigPatch, old: XfceConfig, new: XfceConfig) -> bool {
    &&& channels_patch_view(p.xfconf.channels) == channels_diff(
        old.xfconf.channels.0.0@,
        new.xfconf.channels.0.0,
        cps_view(new.xfconf.clear_paths@),
    )
    &&& map_made_of(p.panel.0, old.panel.0.0@, new.panel.0.0@)
    &&& settings_patch_view(p.gtk.settings) == settings_diff(
        settings_view(old.gtk.settings),
        settings_view(new.gtk.settings),
    )
    &&& general_made_of(p.general, old.general, new.general)
}

impl XfceConfigPatch {
    /// The one-way difference from `old` to `new`; fails where a general file's content changes
    /// kind.
    pub fn diff(old: XfceConfig, new: XfceConfig) -> (r: Result<Self, GeneralError>)
        ensures
            match r {
                Ok(p) => general_mismatch(old.general, new.general) is None && config_made_of(p, old, new),
                Err(GeneralError::ContentTypeMismatch(id)) => general_mismatch(old.general, new.general)
                    == Some(id@),
            },
    {
        let ghost o = old;
        let ghost n = new;
        let XfceConfig { xfconf: old_xfconf, panel: old_panel, gtk: old_gtk, general: old_general } = old;
        let XfceConfig { xfconf: new_xfconf, panel: new_panel, gtk: new_gtk, general: new_general } = new;
        let xfconf = XfconfPatch::diff(old_xfconf, new_xfconf);
        let panel = PluginConfigsPatch::diff(old_panel, new_panel);
        let gtk = GtkPatch::diff(old_gtk, new_gtk);
        match GeneralPatch::diff(old_general, new_general) {
            Ok(general) => {
                let r = XfceConfigPatch { xfconf, panel, gtk, general };
                proof {
                    assert(config_made_of(r, o, n));
                }
                Ok(r)
            },
            Err(e) => Err(e),
        }
    }

    /// Whether the xfconf, panel and GTK changes are empty; the general change is not looked at.
    pub fn is_empty(&self) -> (r: bool)
        ensures
            r == (channels_patch_is_empty(channels_patch_view(self.xfconf.channels))
                && self.panel.0.spec_is_empty() && settings_patch_is_empty(
                settings_patch_view(self.gtk.settings),
            )),
    {
        self.xfconf.is_empty() && self.panel.is_empty() && self.gtk.is_empty()
    }

    /// Whether applying the change must restart the panel: its plugins change, or its channel
    /// changes or is added.
    pub fn panel_config_changed(&self) -> (r: bool)
        ensures
            r == (!self.panel.0.spec_is_empty() || (channels_patch_view(self.xfconf.channels).changed)(
                panel_channel(),
            ) is Some || exists|i: int|
                0 <= i < self.xfconf.channels.added@.len()
                    && #[trigger] self.xfconf.channels.added@[i].name@ == panel_channel()),
    {
        !self.panel.is_empty() || self.xfconf.has_panel_changes()
    }
}

/// Diffing a configuration against itself succeeds, and the change it makes is empty in every
/// part: no channel, plugin, setting or file changes or is added, where no xfconf value is a NaN
/// double.
pub proof fn lemma_config_diff_self(c: XfceConfig, p: XfceConfigPatch)
    requires
        c.xfconf.channels.0.0.inv(),
        forall|k: Seq<char>|
            #[trigger] c.xfconf.channels.0.0@.contains_key(k) ==> vv_no_nan(
                channel_owner(channel_view(c.xfconf.channels.0.0@[k])),
            ),
        c.general.configs.0.0.inv(),
        config_made_of(p, c, c),
    ensures
        general_mismatch(c.general, c.general) is None,
        channels_patch_is_empty(channels_patch_view(p.xfconf.channels)),
        p.panel.0.spec_is_empty(),
        settings_patch_is_empty(settings_patch_view(p.gtk.settings)),
        p.general.configs.changed@ == Map::<Seq<char>, ConfigPatch>::empty(),
        p.general.configs.added@.len() == 0,
{
    lemma_channels_diff_self(
        c.xfconf.channels.0.0@,
        c.xfconf.channels.0.0,
        cps_view(c.xfconf.clear_paths@),
    );
    lemma_plugin_configs_diff_self(c.panel.0.0@);
    lemma_map_made_of_self(p.panel.0, c.panel.0.0@);
    lemma_settings_diff_self(settings_view(c.gtk.settings));
    lemma_general_diff_self(c.general, p.general);
}

} // verus!
