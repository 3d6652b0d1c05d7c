use xfce_config::ordmap::OrdMap;
use xfce_config::serde::IdMap;
use xfce_config::xfconf::{
    set_calls, ApplyPath, ArrayItem, ArrayItemError, Channel, ChannelPatch, Channels, ClearPath,
    ClearPathError, DiffPath, Properties, PropertiesCtx, SetValue, TypedValue, Value, Xfconf,
    XfconfMethod, XfconfPatch, XfconfStep, TypedValuePatch, typed_value_same, double_bits_same,
};

fn value(t: TypedValue) -> Value {
    Value { value: t, props: Properties::Empty }
}

fn props(entries: Vec<(&str, Value)>) -> Properties {
    let mut m = OrdMap::new();
    for (k, v) in entries {
        m.insert(k.to_string(), v);
    }
    Properties::Entries(m)
}

fn channel(name: &str, p: Properties) -> Channel {
    Channel { name: name.to_string(), props: p }
}

fn xfconf(channels: Vec<Channel>, clear_paths: Vec<ClearPath>) -> Xfconf {
    Xfconf { channels: Channels(IdMap::from_items(channels)), clear_paths }
}

#[test]
fn clear_path_parse_and_text() {
    let cp = ClearPath::parse("xfce4-panel.plugins.plugin-*.~*").ok().unwrap();
    assert_eq!(cp.channel, "xfce4-panel");
    assert_eq!(cp.parts.len(), 2);
    assert_eq!(cp.parts[0].prop, "plugins");
    assert!(!cp.parts[0].prefix);
    assert_eq!(cp.parts[1].prop, "plugin-");
    assert!(cp.parts[1].prefix);
    assert!(cp.props.value_changed);
    assert_eq!(cp.props.prefix, None);
    assert_eq!(cp.to_text(), "xfce4-panel.plugins.plugin-*.~*");
    let cp = ClearPath::parse("ch.a.keep*").ok().unwrap();
    assert_eq!(cp.props.prefix, Some("keep".to_string()));
    assert!(!cp.props.value_changed);
    assert_eq!(cp.to_text(), "ch.a.keep*");
}

#[test]
fn clear_path_parse_errors() {
    assert!(matches!(ClearPath::parse("channel"), Err(ClearPathError::MissingRootProp)));
    assert!(matches!(ClearPath::parse("channel.*"), Err(ClearPathError::MissingRootProp)));
    assert!(matches!(ClearPath::parse("channel.a.b"), Err(ClearPathError::MissingStar)));
    assert!(matches!(ClearPath::parse("channel.a.~"), Err(ClearPathError::MissingStar)));
}

#[test]
fn diff_of_same_channels_is_empty() {
    let make = || {
        xfconf(
            vec![channel(
                "c",
                props(vec![("a", value(TypedValue::Int(1))), ("s", value(TypedValue::String("x".into())))]),
            )],
            vec![],
        )
    };
    let patch = XfconfPatch::diff(make(), make());
    assert!(patch.is_empty());
    assert!(!patch.has_panel_changes());
    assert!(patch.plan().is_empty());
}

#[test]
fn diff_changes_adds_and_plans_steps() {
    let old = xfconf(vec![channel("c", props(vec![("a", value(TypedValue::Int(1)))]))], vec![]);
    let new = xfconf(
        vec![
            channel("c", props(vec![("a", value(TypedValue::Int(2))), ("b", value(TypedValue::Bool(true)))])),
            channel("xfce4-panel", props(vec![("p", value(TypedValue::Uint(3)))])),
        ],
        vec![],
    );
    let patch = XfconfPatch::diff(old, new);
    assert!(!patch.is_empty());
    assert!(patch.has_panel_changes());
    let steps = patch.plan();
    assert_eq!(steps.len(), 3);
    match &steps[0] {
        XfconfStep::SetProperty { channel, property, value: SetValue::Int(n) } => {
            assert_eq!(channel, "c");
            assert_eq!(property, "/a");
            assert_eq!(*n, 2);
        },
        _ => panic!("unexpected first step"),
    }
    match &steps[1] {
        XfconfStep::SetProperty { channel, property, value: SetValue::Bool(b) } => {
            assert_eq!(channel, "c");
            assert_eq!(property, "/b");
            assert!(*b);
        },
        _ => panic!("unexpected second step"),
    }
    match &steps[2] {
        XfconfStep::SetProperty { channel, property, value: SetValue::Uint(n) } => {
            assert_eq!(channel, "xfce4-panel");
            assert_eq!(property, "/p");
            assert_eq!(*n, 3);
        },
        _ => panic!("unexpected third step"),
    }
}

#[test]
fn clear_paths_remove_missing_keys() {
    let old = xfconf(
        vec![channel(
            "c",
            props(vec![(
                "top",
                Value {
                    value: TypedValue::Empty,
                    props: props(vec![("keep-1", value(TypedValue::Int(1))), ("drop", value(TypedValue::Int(2)))]),
                },
            )]),
        )],
        vec![],
    );
    let new = xfconf(
        vec![channel(
            "c",
            props(vec![("top", Value { value: TypedValue::Empty, props: props(vec![]) })]),
        )],
        vec![ClearPath::parse("c.top.keep*").ok().unwrap()],
    );
    let patch = XfconfPatch::diff(old, new);
    assert!(!patch.is_empty());
    let steps = patch.plan();
    assert_eq!(steps.len(), 1);
    match &steps[0] {
        XfconfStep::ResetProperty { channel, property } => {
            assert_eq!(channel, "c");
            assert_eq!(property, "/top/keep-1");
        },
        _ => panic!("expected a reset"),
    }
}

#[test]
fn without_clear_paths_nothing_is_removed() {
    let old = xfconf(vec![channel("c", props(vec![("a", value(TypedValue::Int(1)))]))], vec![]);
    let new = xfconf(vec![channel("c", props(vec![]))], vec![]);
    let patch = XfconfPatch::diff(old, new);
    assert!(patch.is_empty());
}

#[test]
fn nested_arrays_fail_to_apply() {
    let old = xfconf(vec![channel("c", props(vec![]))], vec![]);
    let new = xfconf(
        vec![channel(
            "c",
            props(vec![
                ("arr", value(TypedValue::Array(vec![value(TypedValue::String("s".into())), value(TypedValue::Int(4))]))),
                ("bad", value(TypedValue::Array(vec![value(TypedValue::Array(vec![]))]))),
                ("empty", value(TypedValue::Array(vec![value(TypedValue::Empty)]))),
            ]),
        )],
        vec![],
    );
    let steps = XfconfPatch::diff(old, new).plan();
    assert_eq!(steps.len(), 3);
    match &steps[0] {
        XfconfStep::SetProperty { property, value: SetValue::Array(items), .. } => {
            assert_eq!(property, "/arr");
            assert_eq!(items.len(), 2);
            assert!(matches!(&items[0], ArrayItem::String(s) if s == "s"));
            assert!(matches!(items[1], ArrayItem::Int(4)));
        },
        _ => panic!("expected an array set"),
    }
    assert!(matches!(&steps[1], XfconfStep::Fail { error: ArrayItemError::ArrayInArray, .. }));
    assert!(matches!(&steps[2], XfconfStep::Fail { error: ArrayItemError::EmptyInArray, .. }));
}

#[test]
fn flattened_properties_build_a_tree() {
    let p = Properties::from_flattened(vec![
        ("/a/b".to_string(), TypedValue::Int(1)),
        ("/a".to_string(), TypedValue::Bool(true)),
        ("/c".to_string(), TypedValue::String("x".into())),
    ]);
    match &p {
        Properties::Entries(m) => {
            assert_eq!(m.len(), 2);
            let a = m.get(&"a".to_string()).unwrap();
            assert!(matches!(a.value, TypedValue::Bool(true)));
            match &a.props {
                Properties::Entries(sub) => {
                    let b = sub.get(&"b".to_string()).unwrap();
                    assert!(matches!(b.value, TypedValue::Int(1)));
                },
                Properties::Empty => panic!("sub-properties lost"),
            }
        },
        Properties::Empty => panic!("no properties"),
    }
}

#[test]
fn apply_paths_build_property_names() {
    let path = ApplyPath::new("ch".to_string()).push("a".to_string()).push("b".to_string());
    let (c, p) = path.channel_property();
    assert_eq!(c, "ch");
    assert_eq!(p, "/a/b");
    let root = ApplyPath::new("ch".to_string());
    assert_eq!(root.channel_property().1, "");
}

#[test]
fn clear_path_filter_matches_prefix_parts() {
    let cp = ClearPath::parse("c.plug*.x.*").ok().unwrap();
    let path = DiffPath::root().with_channel("c".to_string(), "plugin-1".to_string()).push("x".to_string());
    let f = cp.get_remove_keys_filter(&path, &PropertiesCtx::Value(false)).unwrap();
    assert!(f.prefix.is_none());
    assert!(f.keeps(&"anything".to_string()));
    let other = DiffPath::root().with_channel("c".to_string(), "other".to_string()).push("x".to_string());
    assert!(cp.get_remove_keys_filter(&other, &PropertiesCtx::Value(false)).is_none());
    let changed_only = ClearPath::parse("c.plug*.x.~*").ok().unwrap();
    assert!(changed_only.get_remove_keys_filter(&path, &PropertiesCtx::Value(true)).is_none());
    assert!(changed_only.get_remove_keys_filter(&path, &PropertiesCtx::Value(false)).is_some());
}

#[test]
fn set_resets_existing_properties_first() {
    let calls = set_calls(true);
    assert_eq!(calls.len(), 2);
    assert!(matches!(calls[0], XfconfMethod::ResetProperty));
    assert!(matches!(calls[1], XfconfMethod::SetProperty));
    let calls = set_calls(false);
    assert_eq!(calls.len(), 1);
    assert!(matches!(calls[0], XfconfMethod::SetProperty));
}

#[test]
fn channel_patch_of_same_channel_is_empty() {
    let a = channel("c", props(vec![("a", value(TypedValue::Double(0x3ff0000000000000)))]));
    let b = channel("c", props(vec![("a", value(TypedValue::Double(0x3ff0000000000000)))]));
    assert!(ChannelPatch::diff(a, b, &vec![]).is_empty());
}

#[test]
fn doubles_compare_as_f64() {
    let pz = 0.0f64.to_bits();
    let nz = (-0.0f64).to_bits();
    let nan = f64::NAN.to_bits();
    assert!(double_bits_same(pz, nz));
    assert!(!double_bits_same(nan, nan));
    assert!(double_bits_same(1.5f64.to_bits(), 1.5f64.to_bits()));
    assert!(!double_bits_same(1.5f64.to_bits(), 2.5f64.to_bits()));
    assert!(TypedValuePatch::diff(TypedValue::Double(pz), TypedValue::Double(nz)).is_empty());
    assert!(!TypedValuePatch::diff(TypedValue::Double(nan), TypedValue::Double(nan)).is_empty());
    let a = TypedValue::Array(vec![value(TypedValue::Double(pz))]);
    let b = TypedValue::Array(vec![value(TypedValue::Double(nz))]);
    assert!(typed_value_same(&a, &b));
    assert!(TypedValuePatch::diff(a, b).is_empty());
    let c = TypedValue::Array(vec![value(TypedValue::Double(nan))]);
    let d = TypedValue::Array(vec![value(TypedValue::Double(nan))]);
    assert!(!typed_value_same(&c, &d));
    assert!(!TypedValuePatch::diff(c, d).is_empty());
}
