use xfce_config::config::{Color, ColorError};
use xfce_config::diff::{BTreeMapPatch, Diff, Patch, PrimPatch, VecPatch};
use xfce_config::gsettings::{GSettings, GSettingsPatch, Schema, Schemas};
use xfce_config::ordmap::OrdMap;
use xfce_config::serde::IdMap;

#[test]
fn colors_from_hex() {
    let c = Color::from_hex("#ff8000").ok().unwrap();
    assert_eq!((c.0, c.1, c.2), (255, 128, 0));
    let c = Color::from_hex("abc").ok().unwrap();
    assert_eq!((c.0, c.1, c.2), (0xaa, 0xbb, 0xcc));
    let c = Color::from_hex("+f+f+f").ok().unwrap();
    assert_eq!((c.0, c.1, c.2), (15, 15, 15));
    assert!(matches!(Color::from_hex("#12345"), Err(ColorError::WrongLength)));
    assert!(matches!(Color::from_hex("zz0000"), Err(ColorError::InvalidDigit)));
    assert!(matches!(Color::from_hex("+00"), Err(ColorError::InvalidDigit)));
    assert!(matches!(Color::from_components(&vec![1, 2, 3]), Ok(Color(1, 2, 3))));
    assert!(matches!(Color::from_components(&vec![1, 2]), Err(2)));
    assert!(matches!(Color::from_components(&vec![1, 2, 3, 4, 5]), Err(4)));
}

#[test]
fn prim_and_vec_diffs() {
    let p: PrimPatch<u32> = 1u32.diff(&2);
    assert_eq!(p.value, Some(2));
    let p: PrimPatch<u32> = 1u32.diff(&1);
    assert!(p.is_empty());
    let a: Vec<u32> = vec![1, 2, 3];
    let b: Vec<u32> = vec![1, 5, 3, 4, 6];
    let p: VecPatch<u32> = a.diff(&b);
    assert_eq!(p.changed.len(), 1);
    assert!(p.changed.get(&1).is_some());
    assert_eq!(p.added, vec![4, 6]);
    assert_eq!(p.removed, 0);
    let shorter: Vec<u32> = vec![1];
    let p = a.diff(&shorter);
    assert!(!p.is_empty());
    assert_eq!(p.removed, 2);
    assert!(p.changed.is_empty() && p.added.is_empty());
    let p: VecPatch<u32> = vec![1u32, 2].diff(&vec![1u32]);
    assert!(!p.is_empty());
    assert!(a.diff(&a.clone()).is_empty());
}

#[test]
fn map_diffs() {
    let mut a: OrdMap<String, i32> = OrdMap::new();
    a.insert("x".to_string(), 1);
    a.insert("y".to_string(), 2);
    let mut b: OrdMap<String, i32> = OrdMap::new();
    b.insert("x".to_string(), 1);
    b.insert("z".to_string(), 3);
    let p: BTreeMapPatch<String, i32> = a.diff(&b);
    assert!(!p.is_empty());
    assert_eq!(p.changed.len(), 0);
    assert_eq!(p.added.get(&"z".to_string()), Some(&3));
}

fn schema(id: &str, values: Vec<(&str, &str)>) -> Schema {
    let mut m = OrdMap::new();
    for (k, v) in values {
        m.insert(k.to_string(), v.to_string());
    }
    Schema { id: id.to_string(), values: m }
}

#[test]
fn gsettings_diff_and_plan() {
    let old = GSettings { schemas: Schemas(IdMap::from_items(vec![schema("s", vec![("a", "1"), ("b", "2")])])) };
    let new = GSettings {
        schemas: Schemas(IdMap::from_items(vec![
            schema("s", vec![("a", "1"), ("b", "3"), ("c", "true")]),
            schema("t", vec![("z", "'x'")]),
        ])),
    };
    let patch = GSettingsPatch::diff(old, new);
    assert!(!patch.is_empty());
    let sets = patch.plan();
    assert_eq!(sets.len(), 2);
    assert_eq!((sets[0].schema.as_str(), sets[0].key.as_str(), sets[0].value.as_str()), ("s", "b", "3"));
    assert_eq!((sets[1].schema.as_str(), sets[1].key.as_str(), sets[1].value.as_str()), ("s", "c", "true"));
}

#[test]
fn gsettings_plan_lays_new_over_old() {
    let old_values = vec![("s", vec![("a", "1"), ("b", "2"), ("d", "'keep'")])];
    let new_values = vec![("s", vec![("a", "1"), ("b", "3"), ("c", "true")])];
    let mut store: std::collections::BTreeMap<(String, String), String> = std::collections::BTreeMap::new();
    for (id, values) in &old_values {
        for (k, v) in values {
            store.insert((id.to_string(), k.to_string()), v.to_string());
        }
    }
    let old = GSettings {
        schemas: Schemas(IdMap::from_items(old_values.iter().map(|(id, vs)| schema(id, vs.clone())).collect())),
    };
    let new = GSettings {
        schemas: Schemas(IdMap::from_items(new_values.iter().map(|(id, vs)| schema(id, vs.clone())).collect())),
    };
    for set in GSettingsPatch::diff(old, new).plan() {
        store.insert((set.schema, set.key), set.value);
    }
    let got: Vec<(String, String, String)> = store.into_iter().map(|((s, k), v)| (s, k, v)).collect();
    let expected: Vec<(String, String, String)> = vec![
        ("s", "a", "1"),
        ("s", "b", "3"),
        ("s", "c", "true"),
        ("s", "d", "'keep'"),
    ]
    .into_iter()
    .map(|(s, k, v)| (s.to_string(), k.to_string(), v.to_string()))
    .collect();
    assert_eq!(got, expected);
}
