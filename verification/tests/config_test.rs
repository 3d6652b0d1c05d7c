use xfce_config::cfg::Cfg;
use xfce_config::general::{Config, ConfigContent, ConfigId, ConfigRoot, Configs, General};
use xfce_config::gtk::{Gtk, Settings};
use xfce_config::json::{Json, JsonValue};
use xfce_config::ordmap::OrdMap;
use xfce_config::panel::{
    DesktopDir, DesktopFile, DesktopFileContent, Link, PluginConfig, PluginConfigFile,
    PluginConfigs, PluginConfigsPatch, PluginId,
};
use xfce_config::serde::IdMap;
use xfce_config::xfconf::{Channel, Channels, ClearPath, Properties, TypedValue, Value, Xfconf};
use xfce_config::{XfceConfig, XfceConfigPatch};

fn props(entries: Vec<(&str, Value)>) -> Properties {
    let mut m = OrdMap::new();
    for (k, v) in entries {
        m.insert(k.to_string(), v);
    }
    Properties::Entries(m)
}

fn value(t: TypedValue) -> Value {
    Value { value: t, props: Properties::Empty }
}

fn plugins(link_target: &str) -> PluginConfigs {
    let rc = PluginConfig {
        id: PluginId { kind: "clock".to_string(), id: 3 },
        file: PluginConfigFile::Rc(Cfg::read("format=%H\n").ok().unwrap()),
    };
    let dir = PluginConfig {
        id: PluginId { kind: "launcher".to_string(), id: 7 },
        file: PluginConfigFile::DesktopDir(DesktopDir {
            files: IdMap::from_items(vec![
                DesktopFile {
                    id: 1,
                    content: DesktopFileContent::Cfg(Cfg::read("[Desktop Entry]\nName=x\n").ok().unwrap()),
                },
                DesktopFile { id: 2, content: DesktopFileContent::Link(Link { path: link_target.to_string() }) },
            ]),
        }),
    };
    PluginConfigs(IdMap::from_items(vec![rc, dir]))
}

fn sample() -> XfceConfig {
    let channel = Channel {
        name: "xfce4-panel".to_string(),
        props: props(vec![
            ("panels", value(TypedValue::Array(vec![value(TypedValue::Int(1))]))),
            ("size", value(TypedValue::Uint(28))),
            ("ratio", value(TypedValue::Double(0.5f64.to_bits()))),
        ]),
    };
    XfceConfig {
        xfconf: Xfconf {
            channels: Channels(IdMap::from_items(vec![channel])),
            clear_paths: vec![ClearPath::parse("xfce4-panel.plugins.*").ok().unwrap()],
        },
        panel: plugins("/usr/share/applications/a.desktop"),
        gtk: Gtk { settings: Settings(Some(Cfg::read("[Settings]\ngtk-theme-name=Adwaita\n").ok().unwrap())) },
        general: General {
            configs: Configs(IdMap::from_items(vec![
                Config {
                    id: ConfigId { root: ConfigRoot::Config, path: "a.cfg".to_string() },
                    content: ConfigContent::Cfg(Cfg::read("k=v\n").ok().unwrap()),
                },
                Config {
                    id: ConfigId { root: ConfigRoot::Config, path: "b.json".to_string() },
                    content: ConfigContent::Json(Json(JsonValue::String("s".to_string()))),
                },
            ])),
        },
    }
}

#[test]
fn diff_of_a_config_with_itself_is_empty() {
    let patch = XfceConfigPatch::diff(sample(), sample()).ok().unwrap();
    assert!(patch.is_empty());
    assert!(patch.general.is_empty());
    assert!(!patch.panel_config_changed());
    assert!(patch.xfconf.plan().is_empty());
    assert!(patch.panel.plan().is_empty());
}

#[test]
fn plugin_link_target_change_is_seen() {
    let patch = PluginConfigsPatch::diff(plugins("/a"), plugins("/b"));
    assert!(!patch.is_empty());
    let same = PluginConfigsPatch::diff(plugins("/a"), plugins("/a"));
    assert!(same.is_empty());
    let equal_paths = PluginConfigsPatch::diff(plugins("/a/b"), plugins("/a//b"));
    assert!(equal_paths.is_empty());
}
