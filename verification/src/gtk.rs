use crate::cfg::{cfg_patch_diff, cfg_patch_is_empty, Cfg, CfgPatch, CfgPatchView, CfgView};
use vstd::prelude::*;

verus! {

/// The GTK settings file, if there is one.
pub struct Settings(pub Option<Cfg>);

/// The GTK configuration.
pub struct Gtk {
    pub settings: Settings,
}

pub open spec fn settings_view(s: Settings) -> Option<CfgView> {
    match s.0 {
        Some(c) => Some(c@),
        None => None,
    }
}

impl Settings {
    pub fn is_empty(&self) -> (r: bool)
        ensures
            r == (self.0 is None),
    {
        self.0.is_none()
    }
}

impl Gtk {
    pub fn is_empty(&self) -> (r: bool)
        ensures
            r == (self.settings.0 is None),
    {
        self.settings.is_empty()
    }
}

/// The change of the settings file: created, changed, or left as it is.
pub enum SettingsPatch {
    Added(Cfg),
    Changed(CfgPatch),
    Unchanged,
}

/// What the change of the settings file denotes.
pub enum SettingsPatchV {
    Added(CfgView),
    Changed(CfgPatchView),
    Unchanged,
}

pub open spec fn settings_patch_view(p: SettingsPatch) -> SettingsPatchV {
    match p {
        SettingsPatch::Added(c) => SettingsPatchV::Added(c@),
        SettingsPatch::Changed(c) => SettingsPatchV::Changed(c@),
        SettingsPatch::Unchanged => SettingsPatchV::Unchanged,
    }
}

/// The change from `old` to `new` settings: a new file is added, a changed one patched, and a
/// file that `new` lacks is left as it is.
pub open spec fn settings_diff(old: Option<CfgView>, new: Option<CfgView>) -> SettingsPatchV {
    match (old, new) {
        (Some(a), Some(b)) => if cfg_patch_is_empty(cfg_patch_diff(a, b)) {
            SettingsPatchV::Unchanged
        } else {
            SettingsPatchV::Changed(cfg_patch_diff(a, b))
        },
        (None, Some(b)) => SettingsPatchV::Added(b),
        (_, None) => SettingsPatchV::Unchanged,
    }
}

pub open spec fn settings_patch_is_empty(p: SettingsPatchV) -> bool {
    match p {
        SettingsPatchV::Added(_) => false,
        SettingsPatchV::Changed(c) => cfg_patch_is_empty(c),
        SettingsPatchV::Unchanged => true,
    }
}

impl SettingsPatch {
    pub fn diff(old: Settings, new: Settings) -> (r: Self)
        ensures
            settings_patch_view(r) == settings_diff(settings_view(old), settings_view(new)),
    {
        match (old.0, new.0) {
            (Some(old_content), Some(new_content)) => {
                let diff = CfgPatch::diff(old_content, new_content);
                if diff.is_empty() {
                    SettingsPatch::Unchanged
                } else {
                    SettingsPatch::Changed(diff)
                }
            },
            (None, Some(new_content)) => SettingsPatch::Added(new_content),
            (_, None) => SettingsPatch::Unchanged,
        }
    }

    pub fn is_empty(&self) -> (r: bool)
        ensures
            r == settings_patch_is_empty(settings_patch_view(*self)),
    {
        match self {
            SettingsPatch::Added(_) => false,
            SettingsPatch::Changed(p) => p.is_empty(),
            SettingsPatch::Unchanged => true,
        }
    }
}

/// The change of the GTK configuration.
pub struct GtkPatch {
    pub settings: SettingsPatch,
}

impl GtkPatch {
    pub fn diff(old: Gtk, new: Gtk) -> (r: Self)
        ensures
            settings_patch_view(r.settings) == settings_diff(
                settings_view(old.settings),
                settings_view(new.settings),
            ),
    {
        GtkPatch { settings: SettingsPatch::diff(old.settings, new.settings) }
    }

    pub fn is_empty(&self) -> (r: bool)
        ensures
            r == settings_patch_is_empty(settings_patch_view(self.settings)),
    {
        self.settings.is_empty()
    }
}

/// A settings patch made by a diff changes something exactly when it is not empty: it is never
/// an empty change.
pub proof fn lemma_settings_diff_changed_not_empty(old: Option<CfgView>, new: Option<CfgView>)
    ensures
        settings_diff(old, new) is Changed ==> !settings_patch_is_empty(settings_diff(old, new)),
{
}

/// The settings diffed against themselves change nothing.
pub proof fn lemma_settings_diff_self(s: Option<CfgView>)
    ensures
        settings_patch_is_empty(settings_diff(s, s)),
{
    match s {
        Some(c) => crate::cfg::lemma_cfg_diff_self(c),
        None => {},
    }
}

/// The settings patch of `old` and `new` brings `old` up to `new`: a file that only `new` has is
/// added as it is, a changed file gets the patch that, applied to its old content, gives the new
/// content laid over the old one, and a file whose old content already holds the new one, or
/// that `new` lacks, is left alone.
pub proof fn lemma_settings_diff_brings_new(old: Option<CfgView>, new: Option<CfgView>)
    ensures
        match (old, new) {
            (Some(a), Some(b)) => if crate::cfg::cfg_covers(a, b) {
                settings_diff(old, new) == SettingsPatchV::Unchanged
            } else {
                &&& settings_diff(old, new) == SettingsPatchV::Changed(cfg_patch_diff(a, b))
                &&& crate::cfg::cfg_patch_apply(cfg_patch_diff(a, b), a) == crate::cfg::merge_cfg(a, b)
            },
            (None, Some(b)) => settings_diff(old, new) == SettingsPatchV::Added(b),
            (_, None) => settings_diff(old, new) == SettingsPatchV::Unchanged,
        },
{
    match (old, new) {
        (Some(a), Some(b)) => {
            crate::cfg::lemma_cfg_diff_empty(a, b);
            crate::cfg::lemma_cfg_apply_diff(a, b);
        },
        _ => {},
    }
}

} // verus!
