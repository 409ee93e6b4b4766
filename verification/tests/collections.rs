use json_any_key::any_key_map;
use json_any_key::any_key_vec;
use json_any_key::consuming_iter_to_json;
use json_any_key::map_iter_to_json;
use json_any_key::vec_iter_to_json;
use json_any_key::json_to_map;
use json_any_key::json_to_vec;
use json_any_key::parse::parse_json_chars;
use json_any_key::text::to_json_text;
use json_any_key::Json;
use json_any_key::JsonMap;
use json_any_key::KeyClass;

fn chars(s: &str) -> Vec<char> {
    s.chars().collect()
}

fn jstr(s: &str) -> Json {
    json_any_key::json::json_string(s)
}

fn obj2(a: i64, b: i64) -> Json {
    Json::Obj(vec![(chars("a"), Json::Int(a)), (chars("b"), Json::Int(b))])
}

fn obj3(a: i64, b: i64, c: &str) -> Json {
    Json::Obj(vec![
        (chars("a"), Json::Int(a)),
        (chars("b"), Json::Int(b)),
        (chars("c"), jstr(c)),
    ])
}

fn v_int(n: i64) -> serde_json::Value {
    serde_json::Value::from(n)
}

fn v_obj2(a: i64, b: i64) -> serde_json::Value {
    let mut m = serde_json::Map::new();
    m.insert("a".to_string(), v_int(a));
    m.insert("b".to_string(), v_int(b));
    serde_json::Value::Object(m)
}

fn v_obj3(a: i64, b: i64, c: &str) -> serde_json::Value {
    let mut m = serde_json::Map::new();
    m.insert("a".to_string(), v_int(a));
    m.insert("b".to_string(), v_int(b));
    m.insert("c".to_string(), serde_json::Value::String(c.to_string()));
    serde_json::Value::Object(m)
}

/// The `SerdeWithMap { inner }` structure as a JSON value, with the inner
/// map's entries encoded through the map field hook.
fn serde_with_map_json(entries: &Vec<(Json, Json)>) -> Json {
    let field = any_key_map::serialize(entries, KeyClass::Structured).unwrap();
    Json::Obj(vec![(chars("inner"), field)])
}

/// The `SerdeWithVec { inner }` structure as a JSON value, with the inner
/// pair list encoded through the list field hook.
fn serde_with_vec_json(entries: &Vec<(Json, Json)>) -> Json {
    let field = any_key_vec::serialize(entries, KeyClass::Structured).unwrap();
    Json::Obj(vec![(chars("inner"), field)])
}

/// The equivalent `serde_json` value of `SerdeWithMap`/`SerdeWithVec`: one
/// property per entry, named by serde_json's own serialization of the key.
fn serde_with_value(entries: &[(serde_json::Value, serde_json::Value)]) -> serde_json::Value {
    let mut inner = serde_json::Map::new();
    for (k, v) in entries {
        inner.insert(serde_json::to_string(k).unwrap(), v.clone());
    }
    let mut outer = serde_json::Map::new();
    outer.insert("inner".to_string(), serde_json::Value::Object(inner));
    serde_json::Value::Object(outer)
}

fn outer_json() -> Json {
    let entries = vec![(obj3(3, 5, "foo"), obj3(7, 9, "bar"))];
    Json::Obj(vec![
        (chars("map"), serde_with_map_json(&entries)),
        (chars("vec"), serde_with_vec_json(&entries)),
    ])
}

fn outer_value() -> serde_json::Value {
    let entries = vec![(v_obj3(3, 5, "foo"), v_obj3(7, 9, "bar"))];
    let mut m = serde_json::Map::new();
    match serde_with_value(&entries) {
        serde_json::Value::Object(o) => {
            m.insert("map".to_string(), serde_json::Value::Object(o.clone()));
            m.insert("vec".to_string(), serde_json::Value::Object(o));
        }
        _ => unreachable!(),
    }
    serde_json::Value::Object(m)
}

#[test]
fn test_struct_attr_top_level_map() {
    let outer = outer_json();
    {
        let entries = vec![(jstr("top"), outer.duplicate())];
        let ser2 = map_iter_to_json::to_json_map(&entries, KeyClass::RawString).unwrap();
        let mut top = serde_json::Map::new();
        top.insert("top".to_string(), outer_value());
        let ser1 = serde_json::to_string(&serde_json::Value::Object(top)).unwrap();
        assert_eq!(ser1, ser2);
        let deser1 = parse_json_chars(&ser1.chars().collect()).unwrap();
        assert!(deser1.deep_eq(&Json::Obj(vec![(chars("top"), outer.duplicate())])));
        let deser2 = json_to_map(&ser1, KeyClass::RawString).unwrap();
        let mut expected = JsonMap::new();
        expected.insert(jstr("top"), outer.duplicate());
        assert!(deser2.eq_pairs(&expected));
    }
    {
        let key = obj3(10, 11, "bbq");
        let entries = vec![(key.duplicate(), outer.duplicate())];
        let ser = map_iter_to_json::to_json_map(&entries, KeyClass::Structured).unwrap();
        let deser = json_to_map(&ser, KeyClass::Structured).unwrap();
        let mut expected = JsonMap::new();
        expected.insert(key, outer.duplicate());
        assert!(deser.eq_pairs(&expected));
    }
}

#[test]
fn test_struct_attr_1_level() {
    let outer = outer_json();
    let serialized = to_json_text(&outer);
    let deser = parse_json_chars(&serialized.chars().collect()).unwrap();
    assert!(deser.deep_eq(&outer));
}

#[test]
fn test_struct_attr_2_level() {
    let entries = vec![(obj3(3, 5, "foo"), obj3(7, 9, "bar"))];
    let swm = serde_with_map_json(&entries);
    let swv = serde_with_vec_json(&entries);
    let outer_map = any_key_map::serialize(
        &vec![(swv.duplicate(), swm.duplicate())],
        KeyClass::Structured,
    )
    .unwrap();
    let outer_vec = any_key_vec::serialize(
        &vec![(swm.duplicate(), swv.duplicate())],
        KeyClass::Structured,
    )
    .unwrap();
    let outer = Json::Obj(vec![(chars("map"), outer_map), (chars("vec"), outer_vec)]);
    let serialized = to_json_text(&outer);
    let deser = parse_json_chars(&serialized.chars().collect()).unwrap();
    assert!(deser.deep_eq(&outer));
}

#[test]
fn test_struct_roundtrip_map() {
    let mut data = JsonMap::new();
    data.insert(obj2(3, 5), obj2(7, 9));
    data.insert(obj2(11, 12), obj2(13, 14));
    let serialized = map_iter_to_json::to_json_map(data.as_pairs(), KeyClass::Structured).unwrap();
    let deser = json_to_map(&serialized, KeyClass::Structured).unwrap();
    assert!(deser.eq_pairs(&data));
}

#[test]
fn test_struct_roundtrip_map_iter() {
    let mut data = JsonMap::new();
    data.insert(obj2(3, 5), obj2(7, 9));
    data.insert(obj2(11, 12), obj2(13, 14));
    let serialized = map_iter_to_json::to_json_map(data.as_pairs(), KeyClass::Structured).unwrap();
    let deser = json_to_map(&serialized, KeyClass::Structured).unwrap();
    assert!(deser.eq_pairs(&data));
}

#[test]
fn test_struct_roundtrip_vec() {
    let data = vec![
        (obj2(3, 5), obj2(7, 9)),
        (obj2(11, 12), obj2(13, 14)),
    ];
    let serialized = vec_iter_to_json::to_json_map(&data, KeyClass::Structured).unwrap();
    let deser = json_to_vec(&serialized, KeyClass::Structured).unwrap();
    assert_eq!(deser.len(), data.len());
    for i in 0..data.len() {
        assert!(deser[i].0.deep_eq(&data[i].0));
        assert!(deser[i].1.deep_eq(&data[i].1));
    }
}

#[test]
fn test_struct_roundtrip_vec_iter() {
    let data = vec![
        (obj2(3, 5), obj2(7, 9)),
        (obj2(11, 12), obj2(13, 14)),
    ];
    let serialized = vec_iter_to_json::to_json_map(&data, KeyClass::Structured).unwrap();
    let deser = json_to_vec(&serialized, KeyClass::Structured).unwrap();
    assert_eq!(deser.len(), data.len());
    for i in 0..data.len() {
        assert!(deser[i].0.deep_eq(&data[i].0));
        assert!(deser[i].1.deep_eq(&data[i].1));
    }
}

#[test]
fn test_struct_canonical_serialization() {
    let mut string_map = serde_json::Map::new();
    string_map.insert(
        serde_json::to_string(&v_obj2(3, 5)).unwrap(),
        v_obj2(7, 9),
    );
    let canonical_serialization =
        serde_json::to_string(&serde_json::Value::Object(string_map)).unwrap();

    let mut map = JsonMap::new();
    map.insert(obj2(3, 5), obj2(7, 9));
    let serialized = map_iter_to_json::to_json_map(map.as_pairs(), KeyClass::Structured).unwrap();
    assert_eq!(serialized, canonical_serialization);

    let vec = vec![(obj2(3, 5), obj2(7, 9))];
    let serialized = vec_iter_to_json::to_json_map(&vec, KeyClass::Structured).unwrap();
    assert_eq!(serialized, canonical_serialization);

    let serialized = consuming_iter_to_json::into_json_map(vec, KeyClass::Structured).unwrap();
    assert_eq!(serialized, canonical_serialization);
}

#[test]
fn test_string_roundtrip_map() {
    let mut data = JsonMap::new();
    data.insert(jstr("bar"), Json::Int(7));
    data.insert(jstr("foo"), Json::Int(5));
    let serialized = map_iter_to_json::to_json_map(data.as_pairs(), KeyClass::RawString).unwrap();
    let deser = json_to_map(&serialized, KeyClass::RawString).unwrap();
    assert!(deser.eq_pairs(&data));
}

#[test]
fn test_string_roundtrip_map_iter() {
    let mut data = JsonMap::new();
    data.insert(jstr("bar"), Json::Int(7));
    data.insert(jstr("foo"), Json::Int(5));
    let serialized = map_iter_to_json::to_json_map(data.as_pairs(), KeyClass::RawString).unwrap();
    let deser = json_to_map(&serialized, KeyClass::RawString).unwrap();
    assert!(deser.eq_pairs(&data));
}

#[test]
fn test_string_roundtrip_vec() {
    let data = vec![(jstr("bar"), Json::Int(7)), (jstr("foo"), Json::Int(5))];
    let serialized = vec_iter_to_json::to_json_map(&data, KeyClass::RawString).unwrap();
    let deser = json_to_vec(&serialized, KeyClass::RawString).unwrap();
    assert_eq!(deser.len(), data.len());
    for i in 0..data.len() {
        assert!(deser[i].0.deep_eq(&data[i].0));
        assert!(deser[i].1.deep_eq(&data[i].1));
    }
}

#[test]
fn test_string_roundtrip_vec_iter() {
    let data = vec![(jstr("bar"), Json::Int(7)), (jstr("foo"), Json::Int(5))];
    let serialized = vec_iter_to_json::to_json_map(&data, KeyClass::RawString).unwrap();
    let deser = json_to_vec(&serialized, KeyClass::RawString).unwrap();
    assert_eq!(deser.len(), data.len());
    for i in 0..data.len() {
        assert!(deser[i].0.deep_eq(&data[i].0));
        assert!(deser[i].1.deep_eq(&data[i].1));
    }
}

#[test]
fn test_string_canonical_serialization() {
    let mut string_map = serde_json::Map::new();
    string_map.insert("foo".to_string(), v_int(5));
    let canonical_serialization =
        serde_json::to_string(&serde_json::Value::Object(string_map)).unwrap();

    let mut map = JsonMap::new();
    map.insert(jstr("foo"), Json::Int(5));
    let serialized = map_iter_to_json::to_json_map(map.as_pairs(), KeyClass::RawString).unwrap();
    assert_eq!(serialized, canonical_serialization);

    let vec = vec![(jstr("foo"), Json::Int(5))];
    let serialized = vec_iter_to_json::to_json_map(&vec, KeyClass::RawString).unwrap();
    assert_eq!(serialized, canonical_serialization);

    let serialized = consuming_iter_to_json::into_json_map(vec, KeyClass::RawString).unwrap();
    assert_eq!(serialized, canonical_serialization);
}

#[test]
fn test_int_roundtrip_map() {
    let mut data = JsonMap::new();
    data.insert(Json::Int(5), obj2(6, 7));
    data.insert(Json::Int(6), obj2(9, 11));
    let serialized = map_iter_to_json::to_json_map(data.as_pairs(), KeyClass::Structured).unwrap();
    let deser = json_to_map(&serialized, KeyClass::Structured).unwrap();
    assert!(deser.eq_pairs(&data));
}

#[test]
fn test_int_roundtrip_map_iter() {
    let mut data = JsonMap::new();
    data.insert(Json::Int(5), obj2(6, 7));
    data.insert(Json::Int(6), obj2(9, 11));
    let serialized = map_iter_to_json::to_json_map(data.as_pairs(), KeyClass::Structured).unwrap();
    let deser = json_to_map(&serialized, KeyClass::Structured).unwrap();
    assert!(deser.eq_pairs(&data));
}

#[test]
fn test_int_roundtrip_vec() {
    let data = vec![(Json::Int(5), obj2(6, 7)), (Json::Int(6), obj2(9, 11))];
    let serialized = vec_iter_to_json::to_json_map(&data, KeyClass::Structured).unwrap();
    let deser = json_to_vec(&serialized, KeyClass::Structured).unwrap();
    assert_eq!(deser.len(), data.len());
    for i in 0..data.len() {
        assert!(deser[i].0.deep_eq(&data[i].0));
        assert!(deser[i].1.deep_eq(&data[i].1));
    }
}

#[test]
fn test_int_roundtrip_vec_iter() {
    let data = vec![(Json::Int(5), obj2(6, 7)), (Json::Int(6), obj2(9, 11))];
    let serialized = vec_iter_to_json::to_json_map(&data, KeyClass::Structured).unwrap();
    let deser = json_to_vec(&serialized, KeyClass::Structured).unwrap();
    assert_eq!(deser.len(), data.len());
    for i in 0..data.len() {
        assert!(deser[i].0.deep_eq(&data[i].0));
        assert!(deser[i].1.deep_eq(&data[i].1));
    }
}
