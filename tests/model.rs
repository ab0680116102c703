use gdp::frame::Frame;
use gdp::generic_query::GenericQueries;
use gdp::json::{Json, Num};
use gdp::source::{dataset_path, prune_empty_texts, text_map_path};
use gdp::value::Value;

#[test]
fn frame_add_replaces_binding() {
    let mut f = Frame::new();
    assert!(!f.contains("x"));
    f.add("x", Value::from_string("a"));
    f.add("y", Value::from_number(Num::Int(2)));
    f.add("x", Value::from_string("b"));
    assert_eq!(f.entries().len(), 2);
    assert_eq!(f.get("x").unwrap().json, Json::Str("b".to_string()));
    assert!(f.is_resolved());
    let g = f.duplicate();
    assert_eq!(g.get("y").unwrap().json, Json::Number(Num::Int(2)));
}

#[test]
fn loose_text_of_values() {
    assert_eq!(Value::from_number(Num::Int(-42)).as_loose_string(), Some("-42".to_string()));
    assert_eq!(Value::from_string("t").as_loose_string(), Some("t".to_string()));
    assert_eq!(Value::from_json(Json::Null).as_loose_string(), None);
}

#[test]
fn field_lookup_takes_first_entry() {
    let o = Json::Object(vec![
        ("a".to_string(), Json::Bool(true)),
        ("a".to_string(), Json::Bool(false)),
    ]);
    assert_eq!(o.get_field(&"a".to_string()), Some(&Json::Bool(true)));
    assert_eq!(o.get_field(&"b".to_string()), None);
    assert_eq!(Json::Null.get_field(&"a".to_string()), None);
}

#[test]
fn paths_of_sources() {
    assert_eq!(dataset_path("Weapon"), "ExcelBinOutput/Weapon.json");
    assert_eq!(text_map_path("CHS"), "TextMap/TextMapCHS.json");
}

#[test]
fn pruning_drops_empty_texts_only_from_text_tables() {
    let t = Json::Object(vec![
        ("a".to_string(), Json::Str("x".to_string())),
        ("b".to_string(), Json::Str("".to_string())),
    ]);
    assert_eq!(prune_empty_texts(t), Json::Object(vec![("a".to_string(), Json::Str("x".to_string()))]));
    let mixed = Json::Object(vec![
        ("a".to_string(), Json::Number(Num::Int(1))),
        ("b".to_string(), Json::Str("".to_string())),
    ]);
    assert_eq!(prune_empty_texts(mixed.clone()), mixed);
}

#[test]
fn registry_lookup() {
    let r = GenericQueries::with_builtins();
    assert!(r.get("split_by").is_some());
    assert!(r.get("other").is_none());
    assert!(GenericQueries::new().get("split_by").is_none());
}

#[test]
fn default_registry_has_split_by() {
    let r = GenericQueries::default();
    assert!(r.get("split_by").is_some());
}

#[test]
fn missing_file_notice() {
    let notice = Json::Object(vec![("message".to_string(), Json::Str("not a file".to_string()))]);
    assert!(gdp::source::is_missing_file_notice(&notice));
    let other = Json::Object(vec![("message".to_string(), Json::Str("ok".to_string()))]);
    assert!(!gdp::source::is_missing_file_notice(&other));
    assert!(!gdp::source::is_missing_file_notice(&Json::Array(vec![])));
}

#[test]
fn loose_text_of_fractions() {
    assert_eq!(Value::from_number(Num::Micro(1500000)).as_loose_string(), Some("1.5".to_string()));
    assert_eq!(Value::from_number(Num::Micro(-250000)).as_loose_string(), Some("-0.25".to_string()));
    assert_eq!(Value::from_number(Num::Micro(1)).as_loose_string(), Some("0.000001".to_string()));
    assert_eq!(Value::from_number(Num::Micro(12345678)).as_loose_string(), Some("12.345678".to_string()));
}
