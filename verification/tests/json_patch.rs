use exergon_core::json_patch::{deep_copy, merge, Json};

fn s(x: &str) -> Json {
    Json::Str(x.to_string())
}

fn num(x: &str) -> Json {
    Json::Number(x.to_string())
}

fn obj(entries: Vec<(&str, Json)>) -> Json {
    Json::Object(entries.into_iter().map(|(k, v)| (k.to_string(), v)).collect())
}

fn widget(id: &str, power: &str) -> Json {
    obj(vec![("id", s(id)), ("power", num(power)), ("tags", Json::Array(vec![s("a")]))])
}

#[test]
fn update_merges_single_field() {
    let patched = merge(widget("miner", "5.0"), &obj(vec![("power", num("42.0"))]));
    assert_eq!(patched, obj(vec![("id", s("miner")), ("power", num("42.0")), ("tags", Json::Array(vec![s("a")]))]));
}

#[test]
fn update_replaces_arrays_wholesale() {
    let patched = merge(widget("miner", "5.0"), &obj(vec![("tags", Json::Array(vec![s("x"), s("y")]))]));
    assert_eq!(patched, obj(vec![("id", s("miner")), ("power", num("5.0")), ("tags", Json::Array(vec![s("x"), s("y")]))]));
}

#[test]
fn merge_adds_new_keys_at_end() {
    let patched = merge(obj(vec![("a", num("1"))]), &obj(vec![("b", Json::Bool(true))]));
    assert_eq!(patched, obj(vec![("a", num("1")), ("b", Json::Bool(true))]));
}

#[test]
fn merge_recurses_into_nested_objects() {
    let base = obj(vec![("inner", obj(vec![("x", num("1")), ("y", num("2"))]))]);
    let patch = obj(vec![("inner", obj(vec![("y", num("3")), ("z", Json::Null)]))]);
    assert_eq!(merge(base, &patch), obj(vec![("inner", obj(vec![("x", num("1")), ("y", num("3")), ("z", Json::Null)]))]));
}

#[test]
fn null_in_patch_sets_null_rather_than_deleting() {
    let patched = merge(obj(vec![("a", num("1"))]), &obj(vec![("a", Json::Null)]));
    assert_eq!(patched, obj(vec![("a", Json::Null)]));
}

#[test]
fn scalar_patch_replaces_whole_value() {
    assert_eq!(merge(widget("miner", "5.0"), &s("gone")), s("gone"));
    assert_eq!(merge(s("old"), &obj(vec![("k", num("1"))])), obj(vec![("k", num("1"))]));
}

#[test]
fn deep_copy_is_equal() {
    let w = widget("miner", "5.0");
    assert_eq!(deep_copy(&w), w);
}
