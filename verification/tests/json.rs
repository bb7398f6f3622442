use binjs::ast::json::{string_array, JsonObject, JsonValue};
use binjs::ast::names::NameSet;

#[test]
fn object_insert_get_remove() {
    let mut object = JsonObject::new();
    assert!(object.insert("a".to_string(), JsonValue::Bool(true)).is_none());
    assert!(object.insert("b".to_string(), JsonValue::Null).is_none());
    match object.insert("a".to_string(), JsonValue::Bool(false)) {
        Some(JsonValue::Bool(true)) => {}
        _ => panic!("expected the previous value"),
    }
    assert!(matches!(object.get("a"), Some(JsonValue::Bool(false))));
    assert_eq!(object.entries().len(), 2);
    assert!(matches!(object.remove("a"), Some(JsonValue::Bool(false))));
    assert!(object.get("a").is_none());
    assert!(!object.contains_key("a"));
    assert!(object.contains_key("b"));
    assert!(object.remove("a").is_none());
}

#[test]
fn deep_copy_copies_everything() {
    let mut inner = JsonObject::new();
    inner.insert("n".to_string(), JsonValue::Number("1.5".to_string()));
    let value = JsonValue::Array(vec![JsonValue::Str("s".to_string()), JsonValue::Object(inner)]);
    let copy = value.deep_copy();
    match copy {
        JsonValue::Array(items) => {
            assert_eq!(items.len(), 2);
            assert!(matches!(&items[0], JsonValue::Str(s) if s == "s"));
            match &items[1] {
                JsonValue::Object(o) => {
                    assert!(matches!(o.get("n"), Some(JsonValue::Number(n)) if n == "1.5"))
                }
                _ => panic!("expected an object"),
            }
        }
        _ => panic!("expected an array"),
    }
}

#[test]
fn string_array_keeps_order() {
    let value = string_array(vec!["b".to_string(), "a".to_string()]);
    match value {
        JsonValue::Array(items) => {
            assert!(matches!(&items[0], JsonValue::Str(s) if s == "b"));
            assert!(matches!(&items[1], JsonValue::Str(s) if s == "a"));
        }
        _ => panic!("expected an array"),
    }
}

#[test]
fn name_set_sorts_and_dedups() {
    let mut names = NameSet::new();
    assert!(names.insert("beta".to_string()));
    assert!(names.insert("alpha".to_string()));
    assert!(!names.insert("beta".to_string()));
    assert!(names.insert("al".to_string()));
    assert!(names.insert("Zed".to_string()));
    assert!(names.insert("é".to_string()));
    assert_eq!(names.sorted(), vec!["Zed", "al", "alpha", "beta", "é"]);
    assert!(names.contains("alpha"));
    assert!(!names.contains("gamma"));
    let mut other = NameSet::new();
    other.insert("gamma".to_string());
    other.insert("alpha".to_string());
    let common = names.intersection(&other);
    assert_eq!(common.sorted(), vec!["alpha"]);
    let mut excluded = NameSet::new();
    excluded.insert("gamma".to_string());
    names.extend_except(&other, &excluded);
    assert!(!names.contains("gamma"));
    names.extend(&other);
    assert!(names.contains("gamma"));
    names.clear();
    assert!(names.names().is_empty());
}
