use xfce_config::cfg::Cfg;
use xfce_config::ordmap::OrdMap;
use xfce_config::panel::{
    decimal_text, desktop_entry, parse_u64, plugin_entry, plugin_id_of_stem, remove_plugin_action,
    split_extension, DesktopDir, DesktopFile, DesktopFileContent, Link, PanelStep, PluginConfig,
    PluginConfigFile, PluginConfigs, PluginConfigsPatch, PluginFileKind, PluginId, RemovePluginAction,
};
use xfce_config::serde::IdMap;

fn cfg(text: &str) -> Cfg {
    Cfg::read(text).ok().unwrap()
}

fn pid(kind: &str, id: u64) -> PluginId {
    PluginId { kind: kind.to_string(), id }
}

fn rc_plugin(kind: &str, id: u64, text: &str) -> PluginConfig {
    PluginConfig { id: pid(kind, id), file: PluginConfigFile::Rc(cfg(text)) }
}

fn configs(items: Vec<PluginConfig>) -> PluginConfigs {
    PluginConfigs(IdMap::from_items(items))
}

#[test]
fn parses_integers_like_std() {
    assert_eq!(parse_u64("42"), Some(42));
    assert_eq!(parse_u64("+7"), Some(7));
    assert_eq!(parse_u64(""), None);
    assert_eq!(parse_u64("+"), None);
    assert_eq!(parse_u64("-1"), None);
    assert_eq!(parse_u64("1a"), None);
    assert_eq!(parse_u64("18446744073709551615"), Some(u64::MAX));
    assert_eq!(parse_u64("18446744073709551616"), None);
    assert_eq!(decimal_text(0), "0");
    assert_eq!(decimal_text(12345), "12345");
}

#[test]
fn plugin_file_names() {
    let id = plugin_id_of_stem("whiskermenu-12").unwrap();
    assert_eq!(id.kind, "whiskermenu");
    assert_eq!(id.id, 12);
    let id = plugin_id_of_stem("action-buttons-3").unwrap();
    assert_eq!(id.kind, "action-buttons");
    assert!(plugin_id_of_stem("nodash").is_none());
    assert!(plugin_id_of_stem("bad-x").is_none());
    assert_eq!(id.rc_file_name(), "action-buttons-3.rc");
    assert_eq!(id.base_name(), "action-buttons-3");
    assert_eq!(id.desktop_file_name(15), "action-buttons-3/15.desktop");
}

#[test]
fn plugin_entries_and_desktop_files() {
    let (stem, ext) = split_extension("clock-5.rc");
    assert_eq!(stem, "clock-5");
    assert_eq!(ext, Some("rc".to_string()));
    let (stem, ext) = split_extension(".hidden");
    assert_eq!(stem, ".hidden");
    assert_eq!(ext, None);
    match plugin_entry("clock-5.rc", false) {
        Some((id, PluginFileKind::Rc)) => assert_eq!(id.id, 5),
        _ => panic!("expected an RC file"),
    }
    assert!(matches!(plugin_entry("launcher-7", true), Some((_, PluginFileKind::DesktopDir))));
    assert!(plugin_entry("launcher-7.txt", false).is_none());
    assert!(plugin_entry("launcher.rc", false).is_none());
    assert_eq!(desktop_entry("16.desktop"), Some(16));
    assert_eq!(desktop_entry("16.txt"), None);
    assert_eq!(desktop_entry("x.desktop"), None);
    assert_eq!(desktop_entry("16"), None);
}

#[test]
fn plugin_diff_plans_steps_in_order() {
    let old = configs(vec![
        rc_plugin("clock", 1, "a=1\n"),
        rc_plugin("gone", 9, "x=1\n"),
    ]);
    let mut files = IdMap::new();
    files.insert(DesktopFile { id: 4, content: DesktopFileContent::Link(Link { path: "/t".to_string() }) });
    let new = configs(vec![
        rc_plugin("clock", 1, "a=2\n"),
        PluginConfig { id: pid("launcher", 2), file: PluginConfigFile::DesktopDir(DesktopDir { files }) },
    ]);
    let patch = PluginConfigsPatch::diff(old, new);
    assert!(!patch.is_empty());
    let steps = patch.plan();
    assert_eq!(steps.len(), 4);
    assert!(matches!(&steps[0], PanelStep::UpdateCfg { path, .. } if path == "clock-1.rc"));
    assert!(matches!(&steps[1], PanelStep::CreateDesktopDir { path } if path == "launcher-2"));
    assert!(
        matches!(&steps[2], PanelStep::LinkDesktopFile { path, target } if path == "launcher-2/4.desktop" && target == "/t")
    );
    assert!(matches!(&steps[3], PanelStep::RemovePlugin { plugin } if plugin.kind == "gone" && plugin.id == 9));
}

#[test]
fn plugin_diff_of_same_is_empty_but_removals_do_not_count() {
    let patch = PluginConfigsPatch::diff(
        configs(vec![rc_plugin("clock", 1, "a=1\n"), rc_plugin("old", 2, "b=1\n")]),
        configs(vec![rc_plugin("clock", 1, "a=1\n")]),
    );
    assert!(patch.is_empty());
    assert_eq!(patch.0.removed.len(), 1);
}

#[test]
fn plugin_kind_change_replaces() {
    let old = configs(vec![rc_plugin("p", 1, "a=1\n")]);
    let new = configs(vec![PluginConfig {
        id: pid("p", 1),
        file: PluginConfigFile::DesktopDir(DesktopDir { files: IdMap::new() }),
    }]);
    let steps = PluginConfigsPatch::diff(old, new).plan();
    assert_eq!(steps.len(), 2);
    assert!(matches!(&steps[0], PanelStep::RemovePlugin { .. }));
    assert!(matches!(&steps[1], PanelStep::CreateDesktopDir { path } if path == "p-1"));
}

#[test]
fn link_target_change_relinks() {
    let dir = |target: &str| {
        let mut files = IdMap::new();
        files.insert(DesktopFile { id: 3, content: DesktopFileContent::Link(Link { path: target.to_string() }) });
        configs(vec![PluginConfig { id: pid("l", 1), file: PluginConfigFile::DesktopDir(DesktopDir { files }) }])
    };
    assert!(PluginConfigsPatch::diff(dir("/a/b"), dir("/a//b")).is_empty());
    let steps = PluginConfigsPatch::diff(dir("/a/b"), dir("/c")).plan();
    assert_eq!(steps.len(), 2);
    assert!(matches!(&steps[0], PanelStep::RemoveDesktopFile { path } if path == "l-1/3.desktop"));
    assert!(matches!(&steps[1], PanelStep::LinkDesktopFile { target, .. } if target == "/c"));
}

#[test]
fn remove_plugin_prefers_rc_file() {
    assert!(matches!(remove_plugin_action(true, true), Some(RemovePluginAction::RemoveRcFile)));
    assert!(matches!(remove_plugin_action(false, true), Some(RemovePluginAction::RemoveDesktopDir)));
    assert!(remove_plugin_action(false, false).is_none());
    let _ = OrdMap::<String, String>::new();
}
