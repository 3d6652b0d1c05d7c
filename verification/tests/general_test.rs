use xfce_config::cfg::Cfg;
use xfce_config::general::{
    Config, ConfigContent, ConfigContentPatch, ConfigId, ConfigRoot, Configs, General, GeneralError, GeneralPatch,
};
use xfce_config::gtk::{Gtk, GtkPatch, Settings, SettingsPatch};
use xfce_config::json::{Json, JsonNumber, JsonValue};
use xfce_config::serde::{IdMap, RelativePathBuf};
use xfce_config::{XfceConfig, XfceConfigPatch};
use xfce_config::panel::PluginConfigs;
use xfce_config::xfconf::{Channels, Xfconf};

fn id(path: &str) -> ConfigId {
    ConfigId { root: ConfigRoot::Config, path: path.to_string() }
}

fn cfg_config(path: &str, text: &str) -> Config {
    Config { id: id(path), content: ConfigContent::Cfg(Cfg::read(text).ok().unwrap()) }
}

fn json_config(path: &str) -> Config {
    Config { id: id(path), content: ConfigContent::Json(Json(JsonValue::Number(JsonNumber { repr: "1".to_string() }))) }
}

fn general(items: Vec<Config>) -> General {
    General { configs: Configs(IdMap::from_items(items)) }
}

fn whole(gen: General, settings: Option<&str>) -> XfceConfig {
    XfceConfig {
        xfconf: Xfconf { channels: Channels(IdMap::new()), clear_paths: vec![] },
        panel: PluginConfigs(IdMap::new()),
        gtk: Gtk { settings: Settings(settings.map(|t| Cfg::read(t).ok().unwrap())) },
        general: gen,
    }
}

#[test]
fn general_diff_changes_and_adds() {
    let old = general(vec![cfg_config("a.cfg", "x=1\n")]);
    let new = general(vec![cfg_config("a.cfg", "x=2\n"), cfg_config("b.cfg", "y=1\n")]);
    let patch = GeneralPatch::diff(old, new).ok().unwrap();
    assert!(!patch.is_empty());
    assert_eq!(patch.configs.changed.len(), 1);
    assert_eq!(patch.configs.added.len(), 1);
    assert_eq!(patch.configs.added[0].id.path, "b.cfg");
    let changed = patch.configs.changed.get(&id("a.cfg")).unwrap();
    assert!(matches!(changed.content, ConfigContentPatch::Cfg(_)));
}

#[test]
fn general_diff_refuses_kind_change() {
    let old = general(vec![cfg_config("a", "x=1\n"), cfg_config("b", "x=1\n")]);
    let new = general(vec![json_config("a"), json_config("b")]);
    match GeneralPatch::diff(old, new) {
        Err(GeneralError::ContentTypeMismatch(bad)) => assert_eq!(bad.path, "a"),
        Ok(_) => panic!("expected an error"),
    }
}

#[test]
fn config_id_text_and_path() {
    assert_eq!(id("gtk-3.0/bookmarks").to_text(), "{config}/gtk-3.0/bookmarks");
    assert_eq!(id("x/y").full_path("/home/u/.config"), "/home/u/.config/x/y");
    assert_eq!(id("/abs").full_path("/home/u/.config"), "/abs");
}

#[test]
fn gtk_settings_diff() {
    let some = |t: &str| Settings(Some(Cfg::read(t).ok().unwrap()));
    assert!(matches!(SettingsPatch::diff(Settings(None), some("a=1\n")), SettingsPatch::Added(_)));
    assert!(matches!(SettingsPatch::diff(some("a=1\n"), Settings(None)), SettingsPatch::Unchanged));
    assert!(matches!(SettingsPatch::diff(some("a=1\n"), some("a=1\n")), SettingsPatch::Unchanged));
    assert!(matches!(SettingsPatch::diff(some("a=1\n"), some("a=2\n")), SettingsPatch::Changed(_)));
    let p = GtkPatch::diff(Gtk { settings: Settings(None) }, Gtk { settings: Settings(None) });
    assert!(p.is_empty());
    assert!(Gtk { settings: Settings(None) }.is_empty());
}

#[test]
fn whole_config_diff_ignores_general_in_is_empty() {
    let old = whole(general(vec![]), Some("a=1\n"));
    let new = whole(general(vec![cfg_config("n.cfg", "k=v\n")]), Some("a=1\n"));
    let patch = XfceConfigPatch::diff(old, new).ok().unwrap();
    assert!(patch.is_empty());
    assert!(!patch.general.is_empty());
    assert!(!patch.panel_config_changed());
}

#[test]
fn relative_paths_only() {
    assert!(RelativePathBuf::new("a/b".to_string()).is_ok());
    assert!(RelativePathBuf::new("/a/b".to_string()).is_err());
    assert_eq!(
        RelativePathBuf::new("/etc".to_string()).err().unwrap().to_text(),
        "path is not relative"
    );
    assert_eq!(RelativePathBuf::new("c".to_string()).ok().unwrap().as_str(), "c");
}
