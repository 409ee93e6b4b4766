use json_any_key::any_key_map;
use json_any_key::any_key_vec;
use json_any_key::text::to_json_text;
use json_any_key::parse::parse_json_chars;
use json_any_key::Json;
use json_any_key::JsonMap;
use json_any_key::KeyClass;

fn chars(s: &str) -> Vec<char> {
    s.chars().collect()
}

fn obj2(k1: &str, v1: i64, k2: &str, v2: i64) -> Json {
    Json::Obj(vec![(chars(k1), Json::Int(v1)), (chars(k2), Json::Int(v2))])
}

fn jstr(s: &str) -> Json {
    json_any_key::json::json_string(s)
}

/// Wrap an already-encoded field value in an outer object with one field
/// named `inner`, and return its JSON text.
fn wrap_inner(field: Json) -> String {
    to_json_text(&Json::Obj(vec![(chars("inner"), field)]))
}

/// Parse an outer object's text and take out the value of its single field.
fn unwrap_inner(text: &str) -> Json {
    let parsed = parse_json_chars(&text.chars().collect()).unwrap();
    match parsed {
        Json::Obj(mut props) => {
            assert_eq!(props.len(), 1);
            let (name, value) = props.remove(0);
            assert_eq!(name, chars("inner"));
            value
        }
        _ => panic!("outer value is not an object"),
    }
}

#[test]
fn test_struct_serde_with_map() {
    let data = vec![(obj2("a", 3, "b", 5), obj2("a", 7, "b", 9))];
    let field = any_key_map::serialize(&data, KeyClass::Structured).unwrap();
    let serialized = wrap_inner(field);
    assert_eq!(
        serialized,
        "{\"inner\":{\"{\\\"a\\\":3,\\\"b\\\":5}\":{\"a\":7,\"b\":9}}}"
    );
    let field_back = unwrap_inner(&serialized);
    let deser: JsonMap = any_key_map::deserialize(&field_back, KeyClass::Structured).unwrap();
    let mut expected = JsonMap::new();
    expected.insert(obj2("a", 3, "b", 5), obj2("a", 7, "b", 9));
    assert!(deser.eq_pairs(&expected));
}

#[test]
fn test_string_serde_with_map() {
    let data = vec![(jstr("foo"), Json::Int(5))];
    let field = any_key_map::serialize(&data, KeyClass::RawString).unwrap();
    let serialized = wrap_inner(field);
    assert_eq!(serialized, "{\"inner\":{\"foo\":5}}");
    let field_back = unwrap_inner(&serialized);
    let deser: JsonMap = any_key_map::deserialize(&field_back, KeyClass::RawString).unwrap();
    let mut expected = JsonMap::new();
    expected.insert(jstr("foo"), Json::Int(5));
    assert!(deser.eq_pairs(&expected));
}

#[test]
fn test_int_serde_with_map() {
    let data = vec![(Json::Int(5), obj2("a", 6, "b", 7))];
    let field = any_key_map::serialize(&data, KeyClass::Structured).unwrap();
    let serialized = wrap_inner(field);
    assert_eq!(serialized, "{\"inner\":{\"5\":{\"a\":6,\"b\":7}}}");
    let field_back = unwrap_inner(&serialized);
    let deser: JsonMap = any_key_map::deserialize(&field_back, KeyClass::Structured).unwrap();
    let mut expected = JsonMap::new();
    expected.insert(Json::Int(5), obj2("a", 6, "b", 7));
    assert!(deser.eq_pairs(&expected));
}

#[test]
fn test_struct_serde_with_vec() {
    let data = vec![(obj2("a", 3, "b", 5), obj2("a", 7, "b", 9))];
    let field = any_key_vec::serialize(&data, KeyClass::Structured).unwrap();
    let serialized = wrap_inner(field);
    assert_eq!(
        serialized,
        "{\"inner\":{\"{\\\"a\\\":3,\\\"b\\\":5}\":{\"a\":7,\"b\":9}}}"
    );
    let field_back = unwrap_inner(&serialized);
    let deser: Vec<(Json, Json)> =
        any_key_vec::deserialize(&field_back, KeyClass::Structured).unwrap();
    assert_eq!(deser.len(), 1);
    assert!(deser[0].0.deep_eq(&obj2("a", 3, "b", 5)));
    assert!(deser[0].1.deep_eq(&obj2("a", 7, "b", 9)));
}

#[test]
fn test_string_serde_with_vec() {
    let data = vec![(jstr("foo"), Json::Int(5))];
    let field = any_key_vec::serialize(&data, KeyClass::RawString).unwrap();
    let serialized = wrap_inner(field);
    assert_eq!(serialized, "{\"inner\":{\"foo\":5}}");
    let field_back = unwrap_inner(&serialized);
    let deser: Vec<(Json, Json)> =
        any_key_vec::deserialize(&field_back, KeyClass::RawString).unwrap();
    assert_eq!(deser.len(), 1);
    assert!(deser[0].0.deep_eq(&jstr("foo")));
    assert!(deser[0].1.deep_eq(&Json::Int(5)));
}

#[test]
fn test_int_serde_with_vec() {
    let data = vec![(Json::Int(5), obj2("a", 6, "b", 7))];
    let field = any_key_vec::serialize(&data, KeyClass::Structured).unwrap();
    let serialized = wrap_inner(field);
    assert_eq!(serialized, "{\"inner\":{\"5\":{\"a\":6,\"b\":7}}}");
    let field_back = unwrap_inner(&serialized);
    let deser: Vec<(Json, Json)> =
        any_key_vec::deserialize(&field_back, KeyClass::Structured).unwrap();
    assert_eq!(deser.len(), 1);
    assert!(deser[0].0.deep_eq(&Json::Int(5)));
    assert!(deser[0].1.deep_eq(&obj2("a", 6, "b", 7)));
}
