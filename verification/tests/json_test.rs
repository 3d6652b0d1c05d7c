use xfce_config::json::{json_eq, Json, JsonNumber, JsonPatch, JsonValue, ValuePatch};
use xfce_config::ordmap::OrdMap;

fn num(s: &str) -> JsonValue {
    JsonValue::Number(JsonNumber { repr: s.to_string() })
}

fn string(s: &str) -> JsonValue {
    JsonValue::String(s.to_string())
}

fn obj(entries: Vec<(&str, JsonValue)>) -> JsonValue {
    let mut m = OrdMap::new();
    for (k, v) in entries {
        m.insert(k.to_string(), v);
    }
    JsonValue::Object(m)
}

#[test]
fn json_diff_of_same_is_empty() {
    let a = obj(vec![("a", num("1")), ("b", obj(vec![("c", JsonValue::Bool(true))]))]);
    let b = obj(vec![("a", num("1")), ("b", obj(vec![("c", JsonValue::Bool(true))]))]);
    assert!(JsonPatch::diff(Json(a), Json(b)).is_empty());
}

#[test]
fn json_diff_apply_merges_objects() {
    let old = || obj(vec![("a", num("1")), ("b", obj(vec![("c", JsonValue::Bool(true))]))]);
    let new = obj(vec![("b", obj(vec![("d", JsonValue::Null)])), ("e", string("x"))]);
    let patch = JsonPatch::diff(Json(old()), Json(new));
    assert!(!patch.is_empty());
    let mut target = Json(old());
    assert!(patch.fits(&target));
    patch.apply_to_old(&mut target);
    let expected = obj(vec![
        ("a", num("1")),
        ("b", obj(vec![("c", JsonValue::Bool(true)), ("d", JsonValue::Null)])),
        ("e", string("x")),
    ]);
    assert!(json_eq(&target.0, &expected));
}

#[test]
fn json_diff_replaces_other_kinds() {
    let patch = ValuePatch::diff(num("1"), string("1"));
    assert!(matches!(patch, ValuePatch::Changed(JsonValue::String(_))));
    let patch = ValuePatch::diff(JsonValue::Array(vec![num("1")]), JsonValue::Array(vec![num("2")]));
    assert!(!patch.is_empty());
    let mut target = JsonValue::Array(vec![num("1")]);
    patch.apply_to_old(&mut target);
    assert!(json_eq(&target, &JsonValue::Array(vec![num("2")])));
}

#[test]
fn json_diff_keeps_missing_members() {
    let old = obj(vec![("a", num("1")), ("b", num("2"))]);
    let new = obj(vec![("a", num("1"))]);
    assert!(JsonPatch::diff(Json(old), Json(new)).is_empty());
}

#[test]
fn json_patch_fits_only_its_shape() {
    let patch = ValuePatch::diff(obj(vec![("a", num("1"))]), obj(vec![("a", num("2"))]));
    assert!(patch.fits(&obj(vec![])));
    assert!(!patch.fits(&num("3")));
    assert!(!patch.fits(&obj(vec![("a", string("x"))])));
}

#[test]
fn json_eq_compares_values() {
    assert!(json_eq(&num("1"), &num("1")));
    assert!(!json_eq(&num("1"), &num("1.0")));
    assert!(!json_eq(&obj(vec![("a", num("1"))]), &obj(vec![("b", num("1"))])));
    assert!(json_eq(&JsonValue::Null, &JsonValue::Null));
}

#[test]
fn zero_numbers_compare_equal() {
    assert!(ValuePatch::diff(num("0.0"), num("-0.0")).is_empty());
    assert!(ValuePatch::diff(num("-0.0"), num("0.0")).is_empty());
    assert!(!ValuePatch::diff(num("0"), num("0.0")).is_empty());
    assert!(!ValuePatch::diff(num("1.0"), num("2.0")).is_empty());
}
