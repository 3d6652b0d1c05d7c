use xfce_config::cfg::{Cfg, CfgError, CfgPatch};
use xfce_config::ordmap::OrdMap;

fn get(m: &OrdMap<String, String>, k: &str) -> Option<String> {
    m.get(&k.to_string()).cloned()
}

#[test]
fn cfg_read_root_and_sections() {
    let cfg = Cfg::read("a=1\nb=2\n\n[sec]\nc=3\nd=x=y\n").ok().unwrap();
    assert_eq!(get(&cfg.root, "a"), Some("1".to_string()));
    assert_eq!(get(&cfg.root, "b"), Some("2".to_string()));
    let sec = cfg.sections.get(&"sec".to_string()).unwrap();
    assert_eq!(get(sec, "c"), Some("3".to_string()));
    // only the first `=` separates key and value
    assert_eq!(get(sec, "d"), Some("x=y".to_string()));
}

#[test]
fn cfg_read_errors() {
    assert_eq!(Cfg::read("[open\n").err(), Some(CfgError::SectionMissingBracket));
    assert_eq!(Cfg::read("[\n").err(), Some(CfgError::SectionMissingBracket));
    assert_eq!(Cfg::read("novalue\n").err(), Some(CfgError::LineMissingSeparator));
}

#[test]
fn cfg_read_crlf_and_empty_section_title() {
    let cfg = Cfg::read("k=v\r\n[]\r\n").ok().unwrap();
    assert_eq!(get(&cfg.root, "k"), Some("v".to_string()));
    assert!(cfg.sections.contains_key(&"".to_string()));
}

#[test]
fn cfg_render_then_read_gives_same() {
    let text = "a=1\n\n[s]\nb=2\n\n";
    let cfg = Cfg::read(text).ok().unwrap();
    let out = cfg.render();
    assert_eq!(out, text);
    let again = Cfg::read(&out).ok().unwrap();
    assert_eq!(again.render(), text);
}

#[test]
fn cfg_diff_apply_merges() {
    let old = Cfg::read("a=1\nb=2\n[s]\nx=1\n").ok().unwrap();
    let new = Cfg::read("a=1\nb=3\nc=4\n[s]\ny=2\n[t]\nz=5\n").ok().unwrap();
    let patch = CfgPatch::diff(old, new);
    assert!(!patch.is_empty());
    let mut target = Cfg::read("a=1\nb=2\n[s]\nx=1\n").ok().unwrap();
    patch.apply_to_old(&mut target);
    // new values win, what new lacks is kept
    assert_eq!(target.render(), "a=1\nb=3\nc=4\n\n[s]\nx=1\ny=2\n\n[t]\nz=5\n\n");
}

#[test]
fn cfg_diff_of_same_is_empty() {
    let a = Cfg::read("a=1\n[s]\nx=1\n").ok().unwrap();
    let b = Cfg::read("a=1\n[s]\nx=1\n").ok().unwrap();
    assert!(CfgPatch::diff(a, b).is_empty());
}

#[test]
fn cfg_diff_of_subset_is_empty() {
    let old = Cfg::read("a=1\nb=2\n[s]\nx=1\ny=2\n").ok().unwrap();
    let new = Cfg::read("a=1\n[s]\ny=2\n").ok().unwrap();
    assert!(CfgPatch::diff(old, new).is_empty());
}
